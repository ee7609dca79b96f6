use bumpalo::Bump;
use drop_specialization::drop_specialization::specialize_drops;
use drop_specialization::ir::{
    Call, CallType, Expr, Literal, ModifyRc, Proc, ProcLayout, Stmt, UpdateModeIds,
};
use drop_specialization::layout::{InLayout, Layout, LayoutEntry, STLayoutInterner};
use drop_specialization::symbol::{IdentId, IdentIds, ModuleId, Symbol};

const HOME: ModuleId = ModuleId(1);
const STR: InLayout = InLayout(0);
const PAIR: InLayout = InLayout(1);

fn sym(position: u32) -> Symbol {
    Symbol::new(HOME, IdentId(position))
}

/// A statement of a program without branches.
#[derive(Clone, Copy)]
enum Step {
    Inc(u32, u64),
    Dec(u32),
    Index(u32, u32, u64),
    Call(u32),
}

fn fields(arena: &Bump) -> &[InLayout] {
    arena.alloc_slice_copy(&[STR, STR])
}

/// A procedure of a pair `0`, which performs some steps and returns `1`.
fn program<'a>(arena: &'a Bump, steps: &[Step]) -> &'a Stmt<'a> {
    let mut stmt: &'a Stmt<'a> = arena.alloc(Stmt::Ret(sym(1)));
    for step in steps.iter().rev() {
        stmt = arena.alloc(match *step {
            Step::Inc(symbol, count) => {
                Stmt::Refcounting(ModifyRc::Inc(sym(symbol), count), stmt)
            }
            Step::Dec(symbol) => Stmt::Refcounting(ModifyRc::Dec(sym(symbol)), stmt),
            Step::Index(symbol, structure, index) => Stmt::Let(
                sym(symbol),
                Expr::StructAtIndex {
                    index,
                    field_layouts: fields(arena),
                    structure: sym(structure),
                },
                STR,
                stmt,
            ),
            Step::Call(symbol) => Stmt::Let(
                sym(symbol),
                Expr::Call(Call {
                    call_type: CallType::ByName {
                        name: sym(9),
                        ret_layout: STR,
                        arg_layouts: &[],
                    },
                    arguments: &[],
                }),
                STR,
                stmt,
            ),
        });
    }
    stmt
}

fn rewrite<'a>(arena: &'a Bump, body: &Stmt<'a>) -> Stmt<'a> {
    rewrite_with(arena, body, 10)
}

/// Rewrites a program of a module that has a number of names.
fn rewrite_with<'a>(arena: &'a Bump, body: &Stmt<'a>, names: u32) -> Stmt<'a> {
    let mut interner = STLayoutInterner::new();
    interner.insert(LayoutEntry { layout: Layout::Builtin, contains_refcounted: true });
    interner.insert(LayoutEntry {
        layout: Layout::Struct { field_layouts: fields(arena) },
        contains_refcounted: true,
    });
    let mut ident_ids = IdentIds::new();
    for _ in 0..names {
        ident_ids.add_str("old");
    }
    let proc = Proc {
        name: sym(8),
        args: arena.alloc_slice_copy(&[(PAIR, sym(0))]),
        body: *body,
        closure_data_layout: None,
        ret_layout: STR,
        is_self_recursive: false,
    };
    let mut procs = vec![((sym(8), ProcLayout { arguments: &[], result: STR }), proc)];
    let mut update_mode_ids = UpdateModeIds { next: 0 };
    specialize_drops(
        arena,
        &interner,
        HOME,
        &mut ident_ids,
        &mut update_mode_ids,
        &mut procs,
    );
    procs[0].1.body
}

/// What the counting comes to for the two fields of the pair, up to each call and to the end.
fn net(body: &Stmt) -> Vec<(i64, i64)> {
    let mut totals = Vec::new();
    let mut now = (0, 0);
    let mut fields: Vec<(Symbol, u64)> = Vec::new();
    let mut stmt = body;
    loop {
        let worth = |fields: &Vec<(Symbol, u64)>, symbol: Symbol| {
            if symbol == sym(0) {
                return (1, 1);
            }
            match fields.iter().find(|(s, _)| *s == symbol) {
                Some((_, 0)) => (1, 0),
                Some(_) => (0, 1),
                None => (0, 0),
            }
        };
        match stmt {
            Stmt::Let(symbol, expr, _, rest) => {
                match expr {
                    Expr::StructAtIndex { index, .. } => fields.push((*symbol, *index)),
                    Expr::Call(_) => totals.push(now),
                    _ => {}
                }
                stmt = rest;
            }
            Stmt::Refcounting(ModifyRc::Inc(symbol, count), rest) => {
                let (first, second) = worth(&fields, *symbol);
                now = (now.0 + first * *count as i64, now.1 + second * *count as i64);
                stmt = rest;
            }
            Stmt::Refcounting(ModifyRc::Dec(symbol), rest) => {
                let (first, second) = worth(&fields, *symbol);
                now = (now.0 - first, now.1 - second);
                stmt = rest;
            }
            Stmt::Ret(_) => {
                totals.push(now);
                return totals;
            }
            _ => panic!("not a statement of these programs"),
        }
    }
}

fn increments(body: &Stmt) -> Vec<u64> {
    let mut counts = Vec::new();
    let mut stmt = body;
    loop {
        match stmt {
            Stmt::Refcounting(rc, rest) => {
                if let ModifyRc::Inc(_, count) = rc {
                    counts.push(*count);
                }
                stmt = rest;
            }
            Stmt::Let(_, _, _, rest) => stmt = rest,
            _ => return counts,
        }
    }
}

/// The bindings of old symbols, and those of new ones.
fn bindings(body: &Stmt) -> (Vec<Symbol>, Vec<Symbol>) {
    let mut old = Vec::new();
    let mut new = Vec::new();
    let mut stmt = body;
    loop {
        match stmt {
            Stmt::Let(symbol, _, _, rest) => {
                if symbol.ident_id().0 >= 10 {
                    new.push(*symbol);
                } else {
                    old.push(*symbol);
                }
                stmt = rest;
            }
            Stmt::Refcounting(_, rest) => stmt = rest,
            _ => return (old, new),
        }
    }
}

fn programs() -> Vec<Vec<Step>> {
    vec![
        vec![],
        vec![Step::Index(1, 0, 0), Step::Inc(1, 1), Step::Dec(0)],
        vec![Step::Index(1, 0, 0), Step::Inc(1, 1), Step::Dec(1), Step::Dec(0)],
        vec![Step::Index(1, 0, 1), Step::Inc(1, 2), Step::Inc(1, 3), Step::Dec(0), Step::Dec(1)],
        vec![Step::Index(1, 0, 0), Step::Inc(1, 1), Step::Call(2), Step::Dec(0), Step::Dec(1)],
        vec![
            Step::Index(1, 0, 0),
            Step::Index(2, 0, 1),
            Step::Inc(0, 1),
            Step::Inc(2, 1),
            Step::Dec(0),
            Step::Call(3),
            Step::Inc(1, 1),
            Step::Dec(0),
            Step::Dec(2),
        ],
        vec![Step::Inc(0, 2), Step::Dec(0), Step::Dec(0), Step::Dec(0)],
    ]
}

#[test]
fn counts_are_balanced_at_calls_and_at_the_end() {
    for steps in programs() {
        let arena = &Bump::new();
        let body = program(arena, &steps);
        assert_eq!(net(&rewrite(arena, body)), net(body));
    }
}

#[test]
fn an_example_of_what_counting_is_worth() {
    let arena = &Bump::new();
    let body = program(arena, &[Step::Index(1, 0, 0), Step::Inc(1, 1), Step::Dec(0)]);
    assert_eq!(net(body), vec![(0, -1)]);
    assert_eq!(increments(body), vec![1]);
    assert_eq!(net(&rewrite(arena, body)), vec![(0, -1)]);
    assert!(increments(&rewrite(arena, body)).is_empty());
}

#[test]
fn increments_get_fewer_and_none_is_by_zero() {
    for steps in programs() {
        let arena = &Bump::new();
        let body = program(arena, &steps);
        let before = increments(body);
        let after = increments(&rewrite(arena, body));
        assert!(after.iter().sum::<u64>() <= before.iter().sum::<u64>());
        assert!(after.iter().all(|count| *count > 0));
    }
}

#[test]
fn old_bindings_stay_and_new_ones_are_bound_once() {
    for steps in programs() {
        let arena = &Bump::new();
        let body = program(arena, &steps);
        let (before, none) = bindings(body);
        let (after, new) = bindings(&rewrite(arena, body));
        assert!(none.is_empty());
        assert_eq!(after, before);
        for (i, symbol) in new.iter().enumerate() {
            assert!(!new[..i].contains(symbol));
        }
    }
}

#[test]
fn counted_symbols_are_in_scope() {
    for steps in programs() {
        let arena = &Bump::new();
        let body = rewrite(arena, program(arena, &steps));
        let mut scope = vec![sym(0)];
        let mut stmt = &body;
        while let Stmt::Let(_, _, _, rest) | Stmt::Refcounting(_, rest) = stmt {
            match stmt {
                Stmt::Let(symbol, expr, _, _) => {
                    if let Expr::StructAtIndex { structure, .. } = expr {
                        assert!(scope.contains(structure));
                    }
                    scope.push(*symbol);
                }
                Stmt::Refcounting(ModifyRc::Inc(symbol, _) | ModifyRc::Dec(symbol), _) => {
                    assert!(scope.contains(symbol));
                }
                _ => {}
            }
            stmt = rest;
        }
    }
}

#[test]
fn a_program_without_counting_stays_as_it_is() {
    let arena = &Bump::new();
    let literal: &Stmt = arena.alloc(Stmt::Let(
        sym(2),
        Expr::Literal(Literal::Byte(4)),
        STR,
        program(arena, &[Step::Index(1, 0, 0), Step::Call(3)]),
    ));
    assert_eq!(&rewrite(arena, literal), literal);
}

/// The symbols of the increments, with how much they add, in order.
fn incremented(body: &Stmt) -> Vec<(Symbol, u64)> {
    let mut found = Vec::new();
    let mut stmt = body;
    while let Stmt::Let(_, _, _, rest) | Stmt::Refcounting(_, rest) = stmt {
        if let Stmt::Refcounting(ModifyRc::Inc(symbol, count), _) = stmt {
            found.push((*symbol, *count));
        }
        stmt = rest;
    }
    found
}

#[test]
fn no_symbol_is_incremented_more_often_or_elsewhere() {
    for steps in programs() {
        let arena = &Bump::new();
        let body = program(arena, &steps);
        let before = incremented(body);
        let after = incremented(&rewrite(arena, body));
        let total = |found: &Vec<(Symbol, u64)>, symbol: Symbol| -> u64 {
            found.iter().filter(|(s, _)| *s == symbol).map(|(_, count)| *count).sum()
        };
        for (symbol, _) in &after {
            assert!(total(&after, *symbol) <= total(&before, *symbol));
        }
        let mut places = before.iter();
        for (symbol, _) in &after {
            assert!(places.any(|(place, _)| place == symbol));
        }
    }
}

#[test]
fn two_increments_become_what_their_sum_becomes() {
    let arena = &Bump::new();
    let rest = [Step::Dec(0), Step::Call(2), Step::Dec(0)];
    let mut two = vec![Step::Inc(0, 1), Step::Inc(0, 4)];
    two.extend_from_slice(&rest);
    let mut one = vec![Step::Inc(0, 5)];
    one.extend_from_slice(&rest);
    let result = rewrite(arena, program(arena, &two));
    assert_eq!(result, rewrite(arena, program(arena, &one)));
    assert_eq!(incremented(&result), vec![(sym(0), 4)]);
}

#[test]
fn an_increment_cancels_a_decrement_whatever_is_outstanding() {
    let arena = &Bump::new();
    let with = program(arena, &[Step::Inc(0, 2), Step::Inc(0, 1), Step::Dec(0)]);
    let without = program(arena, &[Step::Inc(0, 2)]);
    assert_eq!(rewrite(arena, with), rewrite(arena, without));
    assert_eq!(&rewrite(arena, with), without);
    let larger = program(arena, &[Step::Inc(0, 2), Step::Inc(0, 3), Step::Dec(0)]);
    let smaller = program(arena, &[Step::Inc(0, 2), Step::Inc(0, 2)]);
    assert_eq!(rewrite(arena, larger), rewrite(arena, smaller));
}

#[test]
fn a_child_is_left_out_whatever_is_outstanding_of_it() {
    let arena = &Bump::new();
    let indexed = [Step::Index(1, 0, 0), Step::Index(2, 0, 1)];
    let mut steps = indexed.to_vec();
    steps.extend_from_slice(&[Step::Inc(1, 2), Step::Inc(1, 1), Step::Dec(0)]);
    let mut expected = indexed.to_vec();
    expected.extend_from_slice(&[Step::Inc(1, 2), Step::Dec(2)]);
    assert_eq!(
        &rewrite(arena, program(arena, &steps)),
        program(arena, &expected)
    );
}

#[test]
fn without_indexing_a_second_pass_finds_nothing() {
    for steps in [
        vec![Step::Inc(0, 2), Step::Dec(0), Step::Dec(0), Step::Dec(0)],
        vec![Step::Dec(0), Step::Inc(0, 1), Step::Inc(0, 2), Step::Dec(0)],
        vec![
            Step::Inc(0, 1),
            Step::Call(2),
            Step::Dec(0),
            Step::Inc(0, 3),
            Step::Dec(0),
            Step::Inc(2, 1),
            Step::Call(3),
            Step::Dec(2),
        ],
    ] {
        let arena = &Bump::new();
        let once = rewrite(arena, program(arena, &steps));
        assert_eq!(rewrite(arena, &once), once);
        // Behind an increment, the symbol is not counted before the next call.
        let mut stmt = &once;
        let mut settled: Vec<Symbol> = Vec::new();
        while let Stmt::Let(_, _, _, rest) | Stmt::Refcounting(_, rest) = stmt {
            match stmt {
                Stmt::Refcounting(ModifyRc::Inc(symbol, _), _) => {
                    assert!(!settled.contains(symbol));
                    settled.push(*symbol);
                }
                Stmt::Refcounting(ModifyRc::Dec(symbol), _) => {
                    assert!(!settled.contains(symbol));
                }
                _ => settled.clear(),
            }
            stmt = rest;
        }
    }
}

#[test]
fn new_symbols_are_decremented_right_behind_their_binding() {
    for steps in programs() {
        let arena = &Bump::new();
        let body = rewrite(arena, program(arena, &steps));
        let mut stmt = &body;
        while let Stmt::Let(_, _, _, rest) | Stmt::Refcounting(_, rest) = stmt {
            match stmt {
                Stmt::Let(symbol, expr, _, _) if symbol.ident_id().0 >= 10 => {
                    assert!(matches!(expr, Expr::StructAtIndex { .. }));
                    let Stmt::Refcounting(rc, behind) = rest else {
                        panic!("a binding of a field without its decrement");
                    };
                    assert_eq!(*rc, ModifyRc::Dec(*symbol));
                    stmt = behind;
                    continue;
                }
                Stmt::Refcounting(ModifyRc::Inc(symbol, _) | ModifyRc::Dec(symbol), _) => {
                    assert!(symbol.ident_id().0 < 10);
                }
                _ => {}
            }
            stmt = rest;
        }
    }
}

/// The same with other numbers for the symbols from a number on.
fn renumber<'a>(arena: &'a Bump, body: &Stmt<'a>, from: u32, by: u32) -> &'a Stmt<'a> {
    let other = |symbol: Symbol| {
        let position = symbol.ident_id().0;
        if position >= from {
            sym(position + by)
        } else {
            symbol
        }
    };
    arena.alloc(match body {
        Stmt::Let(symbol, expr, layout, rest) => {
            Stmt::Let(other(*symbol), *expr, *layout, renumber(arena, rest, from, by))
        }
        Stmt::Refcounting(rc, rest) => {
            let rc = match rc {
                ModifyRc::Inc(symbol, count) => ModifyRc::Inc(other(*symbol), *count),
                ModifyRc::Dec(symbol) => ModifyRc::Dec(other(*symbol)),
                ModifyRc::DecRef(symbol) => ModifyRc::DecRef(other(*symbol)),
            };
            Stmt::Refcounting(rc, renumber(arena, rest, from, by))
        }
        _ => *body,
    })
}

#[test]
fn other_names_change_only_the_numbers_of_new_symbols() {
    for steps in programs() {
        let arena = &Bump::new();
        let body = program(arena, &steps);
        let few = rewrite_with(arena, body, 10);
        let many = rewrite_with(arena, body, 17);
        assert_eq!(renumber(arena, &few, 10, 7), &many);
    }
}

#[test]
fn new_symbols_have_the_names_of_their_fields() {
    let arena = &Bump::new();
    let mut interner = STLayoutInterner::new();
    let all: &[InLayout] = arena.alloc_slice_copy(&[STR; 3]);
    interner.insert(LayoutEntry { layout: Layout::Builtin, contains_refcounted: true });
    interner.insert(LayoutEntry {
        layout: Layout::Struct { field_layouts: all },
        contains_refcounted: true,
    });
    let indexed = |structure: u32, symbol: u32, rest| -> &Stmt {
        let expr = Expr::StructAtIndex { index: 1, field_layouts: all, structure: sym(structure) };
        arena.alloc(Stmt::Let(sym(symbol), expr, STR, rest))
    };
    let end: &Stmt = arena.alloc(Stmt::Ret(sym(1)));
    let second: &Stmt = arena.alloc(Stmt::Refcounting(ModifyRc::Dec(sym(2)), end));
    let first: &Stmt = arena.alloc(Stmt::Refcounting(ModifyRc::Dec(sym(0)), second));
    let proc = Proc {
        name: sym(8),
        args: arena.alloc_slice_copy(&[(PAIR, sym(0)), (PAIR, sym(2))]),
        body: *indexed(0, 1, indexed(2, 3, first)),
        closure_data_layout: None,
        ret_layout: STR,
        is_self_recursive: false,
    };
    let mut ident_ids = IdentIds::new();
    for _ in 0..10 {
        ident_ids.add_str("old");
    }
    let mut procs = vec![((sym(8), ProcLayout { arguments: &[], result: STR }), proc)];
    specialize_drops(
        arena,
        &interner,
        HOME,
        &mut ident_ids,
        &mut UpdateModeIds { next: 0 },
        &mut procs,
    );
    let mut found = Vec::new();
    let mut stmt = &procs[0].1.body;
    while let Stmt::Let(_, _, _, rest) | Stmt::Refcounting(_, rest) = stmt {
        if let Stmt::Let(symbol, Expr::StructAtIndex { index, structure, .. }, _, _) = stmt {
            if symbol.ident_id().0 >= 10 {
                let name = format!("field_val_{}", index);
                assert_eq!(ident_ids.get_name(symbol.ident_id()), Some(name.as_str()));
                found.push((*structure, *index));
            }
        }
        stmt = rest;
    }
    // The struct that was decremented first is taken apart first.
    assert_eq!(found, vec![(sym(0), 0), (sym(0), 2), (sym(2), 0), (sym(2), 2)]);
    assert_eq!(ident_ids.len(), 14);
}
