//! Which systems of a stage may run at the same time.

use vstd::prelude::*;
use crate::query::access::{Access, AccessView};

verus! {

/// The members of the first `m` groups, group by group.
pub open spec fn flattened(groups: Seq<Vec<usize>>, m: int) -> Seq<usize>
    decreases m,
{
    if m <= 0 {
        Seq::empty()
    } else {
        flattened(groups, m - 1) + groups[m - 1]@
    }
}

/// The footprints of any two members of the group are compatible.
pub open spec fn conflict_free(accesses: Seq<AccessView>, group: Seq<usize>) -> bool {
    forall|i: int, j: int|
        0 <= i < j < group.len() ==> accesses[(#[trigger] group[i]) as int].is_compatible(
            accesses[(#[trigger] group[j]) as int],
        )
}

/// The footprint of system `i` collides with that of a member of the group.
pub open spec fn collides_with(accesses: Seq<AccessView>, group: Seq<usize>, i: int) -> bool {
    exists|j: int|
        0 <= j < group.len() && !accesses[(#[trigger] group[j]) as int].is_compatible(accesses[i])
}

/// The views of a list of footprints.
pub open spec fn views(accesses: Seq<&Access>) -> Seq<AccessView> {
    Seq::new(accesses.len(), |i: int| accesses[i]@)
}

/// Cuts the systems of a stage, given by their footprints in the order
/// of the stage, into groups of systems that may run at the same time.
/// The groups keep the order of the stage; within a group no system
/// writes what another reads or writes; and a group ends only where the
/// next system collides with one of its members.
pub fn parallel_groups(accesses: &Vec<&Access>) -> (groups: Vec<Vec<usize>>)
    ensures
        flattened(groups@, groups@.len() as int) == Seq::new(
            accesses@.len(),
            |i: int| i as usize,
        ),
        forall|g: int|
            0 <= g < groups@.len() ==> (#[trigger] groups@[g])@.len() > 0 && conflict_free(
                views(accesses@),
                groups@[g]@,
            ),
        forall|g: int|
            0 < g < groups@.len() ==> collides_with(
                views(accesses@),
                groups@[g - 1]@,
                (#[trigger] groups@[g])@[0] as int,
            ),
{
    let ghost all = views(accesses@);
    let mut groups: Vec<Vec<usize>> = Vec::new();
    let mut current: Vec<usize> = Vec::new();
    let mut i: usize = 0;
    proof {
        assert(flattened(groups@, 0) + current@ =~= Seq::new(0, |x: int| x as usize));
    }
    while i < accesses.len()
        invariant
            i <= accesses@.len(),
            all == views(accesses@),
            flattened(groups@, groups@.len() as int) + current@ == Seq::new(
                i as nat,
                |x: int| x as usize,
            ),
            forall|g: int|
                0 <= g < groups@.len() ==> (#[trigger] groups@[g])@.len() > 0 && conflict_free(
                    all,
                    groups@[g]@,
                ),
            forall|g: int|
                0 < g < groups@.len() ==> collides_with(
                    all,
                    groups@[g - 1]@,
                    (#[trigger] groups@[g])@[0] as int,
                ),
            conflict_free(all, current@),
            forall|k: int| 0 <= k < current@.len() ==> #[trigger] current@[k] < i,
            groups@.len() > 0 ==> current@.len() > 0,
            groups@.len() > 0 ==> collides_with(
                all,
                groups@[groups@.len() - 1]@,
                current@[0] as int,
            ),
            i > 0 ==> current@.len() > 0,
        decreases accesses@.len() - i,
    {
        let mut fits = true;
        let mut k: usize = 0;
        while k < current.len()
            invariant
                k <= current@.len(),
                i < accesses@.len(),
                all == views(accesses@),
                forall|x: int| 0 <= x < current@.len() ==> #[trigger] current@[x] < i,
                fits <==> forall|x: int|
                    0 <= x < k ==> all[(#[trigger] current@[x]) as int].is_compatible(all[i as int]),
            decreases current@.len() - k,
        {
            if !accesses[current[k]].is_compatible(accesses[i]) {
                fits = false;
            }
            k += 1;
        }
        let ghost before = flattened(groups@, groups@.len() as int);
        let ghost members = current@;
        if fits {
            current.push(i);
            proof {
                assert(before + current@ =~= (before + members).push(i));
                assert((before + members).push(i) =~= Seq::new((i + 1) as nat,
                    |x: int| x as usize));
            }
        } else {
            let ghost grown = groups@.push(current);
            proof {
                lemma_flattened_prefix(groups@, grown, groups@.len() as int);
                let x = choose|x: int|
                    0 <= x < members.len() && !all[(#[trigger] members[x]) as int].is_compatible(
                        all[i as int],
                    );
                assert(collides_with(all, members, i as int));
            }
            groups.push(current);
            current = Vec::new();
            current.push(i);
            proof {
                assert(flattened(groups@, groups@.len() as int) + current@ =~= (before
                    + members).push(i));
                assert((before + members).push(i) =~= Seq::new((i + 1) as nat,
                    |x: int| x as usize));
            }
        }
        i += 1;
    }
    if current.len() > 0 {
        let ghost grown = groups@.push(current);
        proof {
            lemma_flattened_prefix(groups@, grown, groups@.len() as int);
        }
        groups.push(current);
    } else {
        proof {
            assert(flattened(groups@, groups@.len() as int) + current@ =~= flattened(
                groups@,
                groups@.len() as int,
            ));
        }
    }
    groups
}

/// The members of the first `m` groups do not depend on later groups.
pub proof fn lemma_flattened_prefix(groups: Seq<Vec<usize>>, more: Seq<Vec<usize>>, m: int)
    requires
        0 <= m <= groups.len() <= more.len(),
        forall|g: int| 0 <= g < m ==> more[g] == groups[g],
    ensures
        flattened(more, m) == flattened(groups, m),
    decreases m,
{
    if m > 0 {
        lemma_flattened_prefix(groups, more, m - 1);
    }
}

} // verus!
