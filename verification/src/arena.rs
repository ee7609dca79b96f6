//! The arena that holds the program and the lists of the environment.
//!
//! Both come from `bumpalo`. The contracts of the items in this file are believed rather than
//! proved: each states what one function of that crate does. An arena that cannot get memory
//! panics, as every allocation of the standard library does; no contract speaks of that.
use bumpalo::Bump;
use vstd::prelude::*;

verus! {

/// `bumpalo::Bump`, the arena itself. A value of it is opaque.
#[verifier::external_type_specification]
#[verifier::external_body]
pub struct ExBump<const MIN_ALIGN: usize>(bumpalo::Bump<MIN_ALIGN>);

/// `bumpalo::collections::Vec`, a growable list that lives in an arena. What a list holds is
/// named below, once for each type of item that the environment keeps.
#[verifier::external_type_specification]
#[verifier::external_body]
#[verifier::reject_recursive_types(T)]
pub struct ExBumpVec<'bump, T>(bumpalo::collections::Vec<'bump, T>);

/// `Bump::alloc` moves a value into the arena and hands back a reference to it: what stands
/// behind the reference is that value.
pub assume_specification<const MIN_ALIGN: usize, T>[ Bump::<MIN_ALIGN>::alloc::<T> ](
    bump: &Bump<MIN_ALIGN>,
    val: T,
) -> (slot: &mut T)
    ensures
        *slot == val,
;

/// The items of a list of symbols, first to last.
pub uninterp spec fn symbol_list(list: bumpalo::collections::Vec<'_, u64>) -> Seq<u64>;

/// The items of a list of struct children, first to last: the child and the field that it was
/// indexed out of.
pub uninterp spec fn struct_child_list(list: bumpalo::collections::Vec<'_, (u64, u64)>) -> Seq<
    (u64, u64),
>;

/// The items of a list of union children, first to last: the child, the tag and the field that
/// it was indexed out of.
pub uninterp spec fn union_child_list(list: bumpalo::collections::Vec<'_, (u64, u16, u64)>) -> Seq<
    (u64, u16, u64),
>;

/// `bumpalo::collections::Vec::new_in` for a list of symbols: the new list is empty.
#[verifier::external_body]
pub(crate) fn symbol_list_new_in<'a>(arena: &'a Bump) -> (list: bumpalo::collections::Vec<'a, u64>)
    ensures
        symbol_list(list) == Seq::<u64>::empty(),
{
    bumpalo::collections::Vec::new_in(arena)
}

/// `bumpalo::collections::Vec::push` on a list of symbols: the item becomes the last one.
#[verifier::external_body]
pub(crate) fn symbol_list_push<'a>(list: &mut bumpalo::collections::Vec<'a, u64>, symbol: u64)
    ensures
        symbol_list(*final(list)) == symbol_list(*old(list)).push(symbol),
{
    list.push(symbol)
}

/// `bumpalo::collections::Vec::as_slice` on a list of symbols: the slice shows its items.
#[verifier::external_body]
pub(crate) fn symbol_list_as_slice<'b, 'a>(list: &'b bumpalo::collections::Vec<'a, u64>) -> (items:
    &'b [u64])
    ensures
        items@ == symbol_list(*list),
{
    list.as_slice()
}

/// `bumpalo::collections::Vec::new_in` for a list of struct children: the new list is empty.
#[verifier::external_body]
pub(crate) fn struct_child_list_new_in<'a>(arena: &'a Bump) -> (list: bumpalo::collections::Vec<
    'a,
    (u64, u64),
>)
    ensures
        struct_child_list(list) == Seq::<(u64, u64)>::empty(),
{
    bumpalo::collections::Vec::new_in(arena)
}

/// `bumpalo::collections::Vec::push` on a list of struct children: the item becomes the last
/// one.
#[verifier::external_body]
pub(crate) fn struct_child_list_push<'a>(
    list: &mut bumpalo::collections::Vec<'a, (u64, u64)>,
    child: (u64, u64),
)
    ensures
        struct_child_list(*final(list)) == struct_child_list(*old(list)).push(child),
{
    list.push(child)
}

/// `bumpalo::collections::Vec::as_slice` on a list of struct children: the slice shows its
/// items.
#[verifier::external_body]
pub(crate) fn struct_child_list_as_slice<'b, 'a>(
    list: &'b bumpalo::collections::Vec<'a, (u64, u64)>,
) -> (items: &'b [(u64, u64)])
    ensures
        items@ == struct_child_list(*list),
{
    list.as_slice()
}

/// `bumpalo::collections::Vec::new_in` for a list of union children: the new list is empty.
#[verifier::external_body]
pub(crate) fn union_child_list_new_in<'a>(arena: &'a Bump) -> (list: bumpalo::collections::Vec<
    'a,
    (u64, u16, u64),
>)
    ensures
        union_child_list(list) == Seq::<(u64, u16, u64)>::empty(),
{
    bumpalo::collections::Vec::new_in(arena)
}

/// `bumpalo::collections::Vec::push` on a list of union children: the item becomes the last
/// one.
#[verifier::external_body]
pub(crate) fn union_child_list_push<'a>(
    list: &mut bumpalo::collections::Vec<'a, (u64, u16, u64)>,
    child: (u64, u16, u64),
)
    ensures
        union_child_list(*final(list)) == union_child_list(*old(list)).push(child),
{
    list.push(child)
}

/// `bumpalo::collections::Vec::as_slice` on a list of union children: the slice shows its
/// items.
#[verifier::external_body]
pub(crate) fn union_child_list_as_slice<'b, 'a>(
    list: &'b bumpalo::collections::Vec<'a, (u64, u16, u64)>,
) -> (items: &'b [(u64, u16, u64)])
    ensures
        items@ == union_child_list(*list),
{
    list.as_slice()
}

} // verus!
