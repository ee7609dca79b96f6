//! What holds of the procedures of a module together.
use crate::environment::EnvironmentView;
use crate::ir::{Proc, ProcLayout};
use crate::laws::balance::{arguments_add_only_layouts, scope_of_arguments};
use crate::laws::shape::{gained_field_names, gaining_is_transitive, only_field_names_are_added};
use crate::layout::LayoutEntry;
use crate::rewriting::{
    env_with_arguments, keys_are_distinct, rewritten, rewritten_proc, rewritten_procs,
};
use crate::symbol::{ModuleId, Symbol};
use vstd::prelude::*;

verus! {

/// Every procedure stays where it is and keeps its key and all but its body, and no key occurs
/// twice afterwards if none did before.
pub proof fn procedures_keep_all_but_their_bodies<'a>(
    interner: Seq<LayoutEntry<'a>>,
    home: ModuleId,
    names: Seq<Seq<char>>,
    procs: Seq<((Symbol, ProcLayout<'a>), Proc<'a>)>,
)
    requires
        rewritten_procs(interner, home, names, procs) is Some,
    ensures
        ({
            let (after, _) = rewritten_procs(interner, home, names, procs)->0;
            &&& after.len() == procs.len()
            &&& forall|i: int|
                0 <= i < procs.len() ==> {
                    &&& (#[trigger] after[i]).0 == procs[i].0
                    &&& after[i].1 == (Proc { body: after[i].1.body, ..procs[i].1 })
                }
            &&& keys_are_distinct(procs) ==> keys_are_distinct(after)
        }),
    decreases procs.len(),
{
    if procs.len() > 0 {
        let others = procs.drop_last();
        procedures_keep_all_but_their_bodies(interner, home, names, others);
        let (done, _) = rewritten_procs(interner, home, names, others)->0;
        let (after, _) = rewritten_procs(interner, home, names, procs)->0;
        assert forall|i: int| 0 <= i < procs.len() implies (#[trigger] after[i]).0 == procs[i].0
            && after[i].1 == (Proc { body: after[i].1.body, ..procs[i].1 }) by {
            if i < others.len() {
                assert(after[i] == done[i]);
                assert(others[i] == procs[i]);
            }
        }
    }
}

/// What becomes of a procedure depends on the others only through the names that were added
/// before it: it is rewritten as it would be alone, with nothing known.
pub proof fn each_procedure_is_rewritten_on_its_own<'a>(
    interner: Seq<LayoutEntry<'a>>,
    home: ModuleId,
    names: Seq<Seq<char>>,
    procs: Seq<((Symbol, ProcLayout<'a>), Proc<'a>)>,
    i: int,
)
    requires
        rewritten_procs(interner, home, names, procs) is Some,
        0 <= i < procs.len(),
    ensures
        rewritten_procs(interner, home, names, procs.take(i)) is Some,
        ({
            let (after, _) = rewritten_procs(interner, home, names, procs)->0;
            let (_, between) = rewritten_procs(interner, home, names, procs.take(i))->0;
            let alone = rewritten_proc(
                interner,
                EnvironmentView::empty(home),
                between,
                procs[i].1,
            );
            &&& alone is Some
            &&& after.len() == procs.len()
            &&& after[i].1 == (alone->0).0
        }),
    decreases procs.len(),
{
    let others = procs.drop_last();
    procedures_keep_all_but_their_bodies(interner, home, names, procs);
    if i < others.len() {
        each_procedure_is_rewritten_on_its_own(interner, home, names, others, i);
        assert(others.take(i) =~= procs.take(i));
    } else {
        assert(others =~= procs.take(i));
    }
}

/// The names that were there stay, in their places, and all names that the procedures add are
/// those of fields.
pub proof fn procedures_add_only_field_names<'a>(
    interner: Seq<LayoutEntry<'a>>,
    home: ModuleId,
    names: Seq<Seq<char>>,
    procs: Seq<((Symbol, ProcLayout<'a>), Proc<'a>)>,
)
    requires
        rewritten_procs(interner, home, names, procs) is Some,
    ensures
        gained_field_names(names, (rewritten_procs(interner, home, names, procs)->0).1),
    decreases procs.len(),
{
    if procs.len() > 0 {
        let others = procs.drop_last();
        let proc = procs.last().1;
        procedures_add_only_field_names(interner, home, names, others);
        let (_, between) = rewritten_procs(interner, home, names, others)->0;
        let (_, after) = rewritten_procs(interner, home, names, procs)->0;
        only_field_names_are_added(
            interner,
            env_with_arguments(EnvironmentView::empty(home), proc.args@),
            between,
            proc.body,
        );
        gaining_is_transitive(names, between, after);
    } else {
        assert(names.take(names.len() as int) =~= names);
    }
}

/// A procedure is rewritten with the layouts of its arguments known, and nothing else known or
/// outstanding, with the names that the procedures before it added.
pub proof fn a_procedure_starts_with_its_arguments<'a>(
    interner: Seq<LayoutEntry<'a>>,
    home: ModuleId,
    names: Seq<Seq<char>>,
    procs: Seq<((Symbol, ProcLayout<'a>), Proc<'a>)>,
    i: int,
)
    requires
        rewritten_procs(interner, home, names, procs) is Some,
        0 <= i < procs.len(),
    ensures
        ({
            let (after, last_names) = rewritten_procs(interner, home, names, procs)->0;
            let (_, between) = rewritten_procs(interner, home, names, procs.take(i))->0;
            let start = EnvironmentView {
                home,
                symbol_layouts: scope_of_arguments(procs[i].1.args@),
                struct_children: Map::empty(),
                union_children: Map::empty(),
                box_children: Map::empty(),
                incremented_symbols: Map::empty(),
            };
            &&& i == 0 ==> between == names
            &&& rewritten(interner, start, between, procs[i].1.body) matches Some(body)
            &&& after[i].1.body == body.stmt
            &&& rewritten_procs(interner, home, names, procs.take(i + 1)) matches Some((_, next))
            &&& next == body.names
            &&& i == procs.len() - 1 ==> last_names == body.names
        }),
    decreases procs.len(),
{
    let others = procs.drop_last();
    each_procedure_is_rewritten_on_its_own(interner, home, names, procs, i);
    arguments_add_only_layouts(home, procs[i].1.args@);
    if i < others.len() {
        a_procedure_starts_with_its_arguments(interner, home, names, others, i);
        each_procedure_is_rewritten_on_its_own(interner, home, names, others, i);
        assert(others.take(i) =~= procs.take(i));
        assert(others.take(i + 1) =~= procs.take(i + 1));
        procedures_keep_all_but_their_bodies(interner, home, names, procs);
    } else {
        assert(procs.take(i + 1) =~= procs);
        assert(procs.take(i) =~= others);
    }
    if i == 0 {
        assert(procs.take(0) =~= Seq::empty());
    }
}

} // verus!
