use bumpalo::Bump;
use drop_specialization::environment::DropSpecializationEnvironment;
use drop_specialization::layout::{InLayout, Layout, LayoutEntry, STLayoutInterner};
use drop_specialization::symbol::{IdentId, IdentIds, ModuleId, Symbol};

fn sym(position: u32) -> Symbol {
    Symbol::new(ModuleId(2), IdentId(position))
}

#[test]
fn a_symbol_is_made_of_its_module_and_its_position() {
    let symbol = Symbol::new(ModuleId(5), IdentId(3));
    assert_eq!(symbol.bits, 0x3_0000_0005);
    assert_eq!(symbol.module_id(), ModuleId(5));
    assert_eq!(symbol.ident_id(), IdentId(3));
    let last = Symbol::new(ModuleId(u32::MAX), IdentId(u32::MAX));
    assert_eq!(last.bits, u64::MAX);
    assert_eq!(last.module_id(), ModuleId(u32::MAX));
    assert_eq!(last.ident_id(), IdentId(u32::MAX));
}

#[test]
fn names_are_numbered_in_order_and_may_repeat() {
    let mut ident_ids = IdentIds::new();
    assert_eq!(ident_ids.len(), 0);
    assert_eq!(ident_ids.get_name(IdentId(0)), None);
    assert_eq!(ident_ids.add_str("x"), IdentId(0));
    assert_eq!(ident_ids.add_str("y"), IdentId(1));
    assert_eq!(ident_ids.add_str("x"), IdentId(2));
    assert_eq!(ident_ids.len(), 3);
    assert_eq!(ident_ids.get_name(IdentId(1)), Some("y"));
    assert_eq!(ident_ids.get_name(IdentId(2)), Some("x"));
    assert_eq!(ident_ids.get_name(IdentId(3)), None);
}

#[test]
fn layouts_are_numbered_in_order() {
    let mut interner = STLayoutInterner::new();
    let plain = interner.insert(LayoutEntry {
        layout: Layout::Builtin,
        contains_refcounted: false,
    });
    let boxed = interner.insert(LayoutEntry {
        layout: Layout::Boxed(plain),
        contains_refcounted: true,
    });
    assert_eq!((plain, boxed), (InLayout(0), InLayout(1)));
    assert_eq!(interner.get(plain), Layout::Builtin);
    assert_eq!(interner.get(boxed), Layout::Boxed(plain));
    assert!(!interner.contains_refcounted(plain));
    assert!(interner.contains_refcounted(boxed));
}

#[test]
fn a_new_symbol_belongs_to_the_home_module() {
    let arena = &Bump::new();
    let mut ident_ids = IdentIds::new();
    ident_ids.add_str("x");
    let environment = DropSpecializationEnvironment::new(arena, ModuleId(2));
    let symbol = environment.create_symbol(&mut ident_ids, "fresh");
    assert_eq!(symbol, sym(1));
    assert_eq!(ident_ids.get_name(IdentId(1)), Some("fresh"));
}

#[test]
fn the_last_layout_of_a_symbol_counts() {
    let arena = &Bump::new();
    let mut environment = DropSpecializationEnvironment::new(arena, ModuleId(2));
    environment.add_symbol_layout(sym(0), InLayout(3));
    environment.add_symbol_layout(sym(1), InLayout(4));
    environment.add_symbol_layout(sym(0), InLayout(5));
    assert_eq!(environment.get_symbol_layout(&sym(0)), InLayout(5));
    assert_eq!(environment.get_symbol_layout(&sym(1)), InLayout(4));
}

#[test]
fn children_come_by_kind_and_by_order_of_binding() {
    let arena = &Bump::new();
    let mut environment = DropSpecializationEnvironment::new(arena, ModuleId(2));
    let parent = sym(0);
    assert!(environment.get_children(&parent).is_empty());
    environment.add_box_child(parent, sym(1));
    environment.add_union_child(parent, sym(2), 1, 0);
    environment.add_struct_child(parent, sym(3), 7);
    environment.add_struct_child(parent, sym(4), 6);
    environment.add_union_child(parent, sym(5), 0, 2);
    environment.add_box_child(parent, sym(6));
    environment.add_struct_child(sym(9), sym(7), 0);
    let bits: Vec<u64> = [3, 4, 2, 5, 1, 6].iter().map(|p| sym(*p).bits).collect();
    assert_eq!(environment.get_children(&parent).as_slice(), bits.as_slice());
    assert_eq!(
        environment.get_children(&sym(9)).as_slice(),
        [sym(7).bits].as_slice()
    );
}

#[test]
fn increments_add_up_and_are_taken_off_together() {
    let arena = &Bump::new();
    let mut environment = DropSpecializationEnvironment::new(arena, ModuleId(2));
    assert!(!environment.any_incremented(&sym(0)));
    assert_eq!(environment.get_incremented(&sym(0)), 0);
    environment.add_incremented(sym(0), 2);
    environment.add_incremented(sym(0), 3);
    environment.add_incremented(sym(1), 1);
    assert!(environment.any_incremented(&sym(0)));
    assert_eq!(environment.get_incremented(&sym(0)), 5);
    assert!(!environment.any_incremented(&sym(0)));
    assert!(environment.any_incremented(&sym(1)));
}

#[test]
fn popping_takes_increments_off_one_by_one() {
    let arena = &Bump::new();
    let mut environment = DropSpecializationEnvironment::new(arena, ModuleId(2));
    assert!(!environment.pop_incremented(&sym(0)));
    environment.add_incremented(sym(0), 2);
    assert!(environment.pop_incremented(&sym(0)));
    assert!(environment.any_incremented(&sym(0)));
    assert!(environment.pop_incremented(&sym(0)));
    assert!(!environment.any_incremented(&sym(0)));
    assert!(!environment.pop_incremented(&sym(0)));
}

#[test]
fn popping_takes_back_one_that_was_added() {
    let arena = &Bump::new();
    let mut environment = DropSpecializationEnvironment::new(arena, ModuleId(2));
    environment.add_incremented(sym(0), 4);
    environment.add_incremented(sym(0), 1);
    assert!(environment.pop_incremented(&sym(0)));
    assert_eq!(environment.get_incremented(&sym(0)), 4);
    environment.add_incremented(sym(1), 1);
    assert!(environment.pop_incremented(&sym(1)));
    assert!(!environment.any_incremented(&sym(1)));
}

#[test]
fn an_increment_by_zero_is_noted() {
    let arena = &Bump::new();
    let mut environment = DropSpecializationEnvironment::new(arena, ModuleId(2));
    environment.add_incremented(sym(0), 0);
    assert!(environment.any_incremented(&sym(0)));
    assert_eq!(environment.get_incremented(&sym(0)), 0);
}

#[test]
fn copies_do_not_share_what_is_added_later() {
    let arena = &Bump::new();
    let mut environment = DropSpecializationEnvironment::new(arena, ModuleId(2));
    environment.add_symbol_layout(sym(0), InLayout(1));
    environment.add_struct_child(sym(0), sym(1), 0);
    environment.add_incremented(sym(1), 2);
    let mut copy = environment.clone();
    let mut cleared = environment.clone_without_incremented();
    copy.add_struct_child(sym(0), sym(2), 1);
    assert_eq!(environment.get_children(&sym(0)).len(), 1);
    assert_eq!(copy.get_children(&sym(0)).len(), 2);
    assert_eq!(copy.get_incremented(&sym(1)), 2);
    assert_eq!(environment.get_incremented(&sym(1)), 2);
    assert_eq!(cleared.get_children(&sym(0)).len(), 1);
    assert_eq!(cleared.get_symbol_layout(&sym(0)), InLayout(1));
    assert_eq!(cleared.get_incremented(&sym(1)), 0);
}
