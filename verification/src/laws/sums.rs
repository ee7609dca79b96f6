//! Sums over sets of symbols and over outstanding increments.
use crate::environment::{can_pop, increment_popped, increments_added, outstanding};
use crate::rewriting::{can_restore, increments_popped, increments_restored};
use vstd::prelude::*;

verus! {

/// The sum of what the symbols of a set weigh.
pub open spec fn total(set: Set<u64>, weight: spec_fn(u64) -> int) -> int
    decreases set.len(),
    when set.finite()
{
    if set.len() == 0 {
        0
    } else {
        let symbol = set.choose();
        weight(symbol) + total(set.remove(symbol), weight)
    }
}

/// What the increments of a symbol weigh together.
pub open spec fn weighed(increments: Map<u64, u64>, weight: spec_fn(u64) -> int) -> spec_fn(
    u64,
) -> int {
    |symbol: u64| increments[symbol] * weight(symbol)
}

/// What the outstanding increments weigh together.
pub open spec fn pending(increments: Map<u64, u64>, weight: spec_fn(u64) -> int) -> int {
    total(increments.dom(), weighed(increments, weight))
}

pub(crate) proof fn total_without(set: Set<u64>, weight: spec_fn(u64) -> int, symbol: u64)
    requires
        set.finite(),
        set.contains(symbol),
    ensures
        total(set, weight) == weight(symbol) + total(set.remove(symbol), weight),
    decreases set.len(),
{
    let first = set.choose();
    if first != symbol {
        total_without(set.remove(first), weight, symbol);
        total_without(set.remove(symbol), weight, first);
        assert(set.remove(first).remove(symbol) =~= set.remove(symbol).remove(first));
    }
}

pub(crate) proof fn total_with(set: Set<u64>, weight: spec_fn(u64) -> int, symbol: u64)
    requires
        set.finite(),
        !set.contains(symbol),
    ensures
        total(set.insert(symbol), weight) == weight(symbol) + total(set, weight),
{
    total_without(set.insert(symbol), weight, symbol);
    assert(set.insert(symbol).remove(symbol) =~= set);
}

pub(crate) proof fn total_depends_on_members(
    set: Set<u64>,
    weight: spec_fn(u64) -> int,
    other: spec_fn(u64) -> int,
)
    requires
        set.finite(),
        forall|symbol: u64| #[trigger] set.contains(symbol) ==> weight(symbol) == other(symbol),
    ensures
        total(set, weight) == total(set, other),
    decreases set.len(),
{
    if set.len() > 0 {
        let symbol = set.choose();
        assert(set.contains(symbol));
        total_depends_on_members(set.remove(symbol), weight, other);
    }
}

pub(crate) proof fn total_splits(set: Set<u64>, part: Set<u64>, weight: spec_fn(u64) -> int)
    requires
        set.finite(),
        part.subset_of(set),
    ensures
        part.finite(),
        total(set, weight) == total(part, weight) + total(set.difference(part), weight),
    decreases set.len(),
{
    assert(part =~= set.intersect(part));
    if set.len() == 0 {
        assert(set =~= Set::empty());
        assert(part =~= Set::empty());
        assert(set.difference(part) =~= Set::empty());
    } else {
        let symbol = set.choose();
        total_splits(set.remove(symbol), part.remove(symbol), weight);
        if part.contains(symbol) {
            total_without(part, weight, symbol);
            assert(set.remove(symbol).difference(part.remove(symbol)) =~= set.difference(part));
        } else {
            assert(part.remove(symbol) =~= part);
            total_without(set.difference(part), weight, symbol);
            assert(set.remove(symbol).difference(part) =~= set.difference(part).remove(symbol));
        }
    }
}

pub(crate) proof fn pending_without(
    increments: Map<u64, u64>,
    weight: spec_fn(u64) -> int,
    symbol: u64,
)
    requires
        increments.dom().finite(),
    ensures
        increments.remove(symbol).dom().finite(),
        pending(increments, weight) == outstanding(increments, symbol) * weight(symbol) + pending(
            increments.remove(symbol),
            weight,
        ),
{
    let rest = increments.remove(symbol);
    assert(rest.dom() =~= increments.dom().remove(symbol));
    total_depends_on_members(rest.dom(), weighed(increments, weight), weighed(rest, weight));
    if increments.contains_key(symbol) {
        total_without(increments.dom(), weighed(increments, weight), symbol);
    } else {
        assert(rest =~= increments);
        assert(0 * weight(symbol) == 0) by (nonlinear_arith);
    }
}

pub(crate) proof fn pending_after_adding(
    increments: Map<u64, u64>,
    weight: spec_fn(u64) -> int,
    symbol: u64,
    count: u64,
)
    requires
        increments.dom().finite(),
        outstanding(increments, symbol) + count <= u64::MAX,
    ensures
        increments_added(increments, symbol, count).dom().finite(),
        pending(increments_added(increments, symbol, count), weight) == pending(increments, weight)
            + count * weight(symbol),
{
    let added = increments_added(increments, symbol, count);
    assert(added.dom() =~= increments.dom().insert(symbol));
    pending_without(increments, weight, symbol);
    pending_without(added, weight, symbol);
    assert(added.remove(symbol) =~= increments.remove(symbol));
    let before = outstanding(increments, symbol);
    assert((before + count) * weight(symbol) == before * weight(symbol) + count * weight(symbol))
        by (nonlinear_arith);
}

pub(crate) proof fn pending_after_popping(
    increments: Map<u64, u64>,
    weight: spec_fn(u64) -> int,
    symbol: u64,
)
    requires
        increments.dom().finite(),
        can_pop(increments, symbol),
    ensures
        increment_popped(increments, symbol).dom().finite(),
        pending(increment_popped(increments, symbol), weight) == pending(increments, weight) - (
        if increments.contains_key(symbol) {
            weight(symbol)
        } else {
            0
        }),
{
    let popped = increment_popped(increments, symbol);
    if increments.contains_key(symbol) {
        pending_without(increments, weight, symbol);
        pending_without(popped, weight, symbol);
        assert(popped.remove(symbol) =~= increments.remove(symbol));
        let count = outstanding(popped, symbol);
        assert(increments[symbol] == count + 1);
        assert((count + 1) * weight(symbol) == count * weight(symbol) + weight(symbol))
            by (nonlinear_arith);
    }
}

/// Restoring one symbol after the others is the same as noting one more increment of it.
pub(crate) proof fn restoring_adds_one_by_one(
    increments: Map<u64, u64>,
    symbols: Set<u64>,
    symbol: u64,
)
    requires
        !symbols.contains(symbol),
    ensures
        increments_restored(increments, symbols.insert(symbol)) == increments_added(
            increments_restored(increments, symbols),
            symbol,
            1,
        ),
{
    assert(increments_restored(increments, symbols.insert(symbol)) =~= increments_added(
        increments_restored(increments, symbols),
        symbol,
        1,
    ));
}

pub(crate) proof fn pending_after_restoring(
    increments: Map<u64, u64>,
    weight: spec_fn(u64) -> int,
    symbols: Set<u64>,
)
    requires
        increments.dom().finite(),
        symbols.finite(),
        can_restore(increments, symbols),
    ensures
        increments_restored(increments, symbols).dom().finite(),
        pending(increments_restored(increments, symbols), weight) == pending(increments, weight)
            + total(symbols, weight),
    decreases symbols.len(),
{
    if symbols.len() == 0 {
        assert(symbols =~= Set::empty());
        assert(increments_restored(increments, symbols) =~= increments);
    } else {
        let symbol = symbols.choose();
        let others = symbols.remove(symbol);
        assert(symbols.contains(symbol));
        pending_after_restoring(increments, weight, others);
        assert(others.insert(symbol) =~= symbols);
        restoring_adds_one_by_one(increments, others, symbol);
        let before = increments_restored(increments, others);
        assert(outstanding(before, symbol) == outstanding(increments, symbol));
        pending_after_adding(before, weight, symbol, 1);
        assert(1 * weight(symbol) == weight(symbol));
    }
}

/// Popping takes away what the symbols weigh that had an increment.
pub(crate) proof fn pending_after_popping_all(
    increments: Map<u64, u64>,
    weight: spec_fn(u64) -> int,
    symbols: Seq<u64>,
)
    requires
        increments.dom().finite(),
        symbols.no_duplicates(),
        increments_popped(increments, symbols) is Some,
    ensures
        ({
            let (left, popped) = increments_popped(increments, symbols)->0;
            &&& left.dom().finite()
            &&& left.dom().subset_of(increments.dom())
            &&& popped.finite()
            &&& forall|symbol: u64| #[trigger] popped.contains(symbol) ==> symbols.contains(symbol)
            &&& pending(increments, weight) == pending(left, weight) + total(popped, weight)
        }),
    decreases symbols.len(),
{
    if symbols.len() > 0 {
        let others = symbols.drop_last();
        let symbol = symbols.last();
        assert(others.no_duplicates());
        pending_after_popping_all(increments, weight, others);
        let (before, popped) = increments_popped(increments, others)->0;
        assert(!others.contains(symbol));
        pending_after_popping(before, weight, symbol);
        if before.contains_key(symbol) {
            total_with(popped, weight, symbol);
        }
        assert forall|s: u64| #[trigger]
            (increments_popped(increments, symbols)->0).1.contains(s) implies symbols.contains(
            s,
        ) by {
            if s == symbol {
                assert(symbols[symbols.len() - 1] == s);
            } else {
                assert(others.contains(s));
                let i = others.index_of(s);
                assert(symbols[i] == s);
            }
        }
    }
}

} // verus!
