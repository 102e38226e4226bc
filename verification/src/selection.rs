//! The variables that a solver is asked to solve for are the ones that it has.
use crate::compiler::VarId;
use crate::solver;
use vstd::prelude::*;

verus! {

/// `ids` are the variables with the wanted names: each of them has one of the
/// names, each name has one of them, and none is there twice.
pub open spec fn are_named(
    names: Seq<Seq<char>>,
    wanted: Seq<Seq<char>>,
    ids: Seq<VarId>,
) -> bool {
    &&& ids.no_duplicates()
    &&& forall|j: int|
        0 <= j < ids.len() ==> (#[trigger] ids[j]).index < names.len() && wanted.contains(
            names[ids[j].index as int],
        )
    &&& forall|k: int|
        0 <= k < wanted.len() ==> exists|j: int|
            0 <= j < ids.len() && names[(#[trigger] ids[j]).index as int] == #[trigger] wanted[k]
}

/// Every name of a list is in another.
pub open spec fn all_known(names: Seq<Seq<char>>, wanted: Seq<Seq<char>>) -> bool {
    forall|k: int| 0 <= k < wanted.len() ==> names.contains(#[trigger] wanted[k])
}

/// The variables selected by known names are those with the names, and all of
/// them; they come in the order in which the names are given first.
pub proof fn law_selected(names: Seq<Seq<char>>, wanted: Seq<Seq<char>>)
    requires
        names.len() <= usize::MAX,
        all_known(names, wanted),
    ensures
        are_named(names, wanted, solver::selected(names, wanted)),
        wanted.no_duplicates() ==> solver::selected(names, wanted).len() == wanted.len() && forall|
            k: int,
        |
            0 <= k < wanted.len() ==> names[(#[trigger] solver::selected(
                names,
                wanted,
            )[k]).index as int] == wanted[k],
    decreases wanted.len(),
{
    let ids = solver::selected(names, wanted);
    if wanted.len() > 0 {
        let before = wanted.drop_last();
        let head = solver::selected(names, before);
        let name = wanted.last();
        assert(wanted[wanted.len() - 1] == name);
        assert forall|k: int| 0 <= k < before.len() implies names.contains(
            #[trigger] before[k],
        ) by {
            assert(before[k] == wanted[k]);
        }
        law_selected(names, before);
        let place = names.index_of(name);
        assert(0 <= place < names.len() && names[place] == name) by {
            let k = choose|k: int| 0 <= k < names.len() && names[k] == name;
            assert(names[k] == name);
        }
        let id = VarId { index: place as usize };
        assert forall|j: int| 0 <= j < ids.len() implies (#[trigger] ids[j]).index < names.len()
            && wanted.contains(names[ids[j].index as int]) by {
            if j < head.len() {
                assert(ids[j] == head[j]);
                let k = choose|k: int|
                    0 <= k < before.len() && before[k] == names[head[j].index as int];
                assert(wanted[k] == names[ids[j].index as int]);
            } else {
                assert(ids[j] == id);
            }
        }
        assert forall|k: int| 0 <= k < wanted.len() implies exists|j: int|
            0 <= j < ids.len() && names[(#[trigger] ids[j]).index as int]
                == #[trigger] wanted[k] by {
            if k < before.len() {
                assert(before[k] == wanted[k]);
                let j = choose|j: int|
                    0 <= j < head.len() && names[(#[trigger] head[j]).index as int] == before[k];
                assert(ids[j] == head[j]);
            } else if head.contains(id) {
                let j = choose|j: int| 0 <= j < head.len() && head[j] == id;
                assert(ids[j] == id);
            } else {
                assert(ids[ids.len() - 1] == id);
            }
        }
        if wanted.no_duplicates() {
            assert(before.no_duplicates());
            if head.contains(id) {
                let j = choose|j: int| 0 <= j < head.len() && head[j] == id;
                assert(names[head[j].index as int] == before[j]);
                assert(wanted[j] == wanted[wanted.len() - 1]);
            }
            assert forall|k: int| 0 <= k < wanted.len() implies names[(#[trigger] ids[k]).index as int]
                == wanted[k] by {
                if k < before.len() {
                    assert(ids[k] == head[k]);
                    assert(before[k] == wanted[k]);
                }
            }
        }
    }
}

/// A name is reported as unknown exactly where one is, and it is the first.
pub proof fn law_first_unknown(names: Seq<Seq<char>>, wanted: Seq<Seq<char>>)
    ensures
        match solver::first_unknown(names, wanted) {
            None => all_known(names, wanted),
            Some(name) => !names.contains(name) && exists|k: int|
                0 <= k < wanted.len() && #[trigger] wanted[k] == name && all_known(
                    names,
                    wanted.take(k),
                ),
        },
    decreases wanted.len(),
{
    if wanted.len() > 0 {
        let before = wanted.drop_last();
        let last = wanted.len() - 1;
        law_first_unknown(names, before);
        match solver::first_unknown(names, before) {
            Some(name) => {
                let k = choose|k: int|
                    0 <= k < before.len() && #[trigger] before[k] == name && all_known(
                        names,
                        before.take(k),
                    );
                assert(wanted[k] == name);
                assert(wanted.take(k) =~= before.take(k));
            },
            None => {
                assert(wanted.take(last) =~= before);
                assert forall|k: int| 0 <= k < last implies names.contains(
                    #[trigger] wanted[k],
                ) by {
                    assert(before[k] == wanted[k]);
                }
                assert(wanted[last] == wanted.last());
            },
        }
    }
}

} // verus!
