//! The state of a query: its shape, its footprint, and the archetypes
//! that it matches.

use vstd::prelude::*;
use crate::archetype::{strictly_sorted, Archetype, ArchetypeId};
use crate::component::{ComponentId, Stored};
use crate::entity::Entity;
use crate::query::access::{Access, AccessView, FilteredAccess, FilteredAccessView};
use crate::query::shape::{
    check_uses,
    items_view,
    shape_uses,
    used,
    used_at,
    Fetch,
    Filter,
    QueryError,
    QueryItem,
    QueryItemView,
    QueryShape,
    TermUse,
    UseKind,
};
use crate::query::write::{
    after_item,
    after_items,
    answered_by,
    apply_write,
    same_placement,
    term_write,
    write_applies,
    ComponentWrite,
};
use crate::world::{World, WorldView};

verus! {

/// Why a query has no item for an entity.
#[derive(Copy, Clone, Debug, PartialEq, Eq, Structural)]
pub enum QueryEntityError {
    /// The entity is live but the query does not select it.
    NoMatch,
    /// The handle does not name a live entity.
    NoSuchEntity,
}

/// A run of rows of one archetype: the rows from `start` up to, not
/// including, `end`.
#[derive(Copy, Clone, Debug, PartialEq, Eq, Structural)]
pub struct Batch {
    pub archetype_id: ArchetypeId,
    pub start: usize,
    pub end: usize,
}

/// The items of the first `n` batches, batch by batch.
pub open spec fn batch_items(
    shape: QueryShape,
    world: WorldView,
    batches: Seq<Batch>,
    n: int,
    system_counter: u32,
    global_system_counter: u32,
) -> Seq<QueryItemView>
    decreases n,
{
    if n <= 0 {
        Seq::empty()
    } else {
        batch_items(shape, world, batches, n - 1, system_counter, global_system_counter)
            + shape.range_items(
            world,
            batches[n - 1].archetype_id as int,
            batches[n - 1].start as int,
            batches[n - 1].end as int,
            system_counter,
            global_system_counter,
        )
    }
}

/// The batches are runs of at most `batch_size` rows of matching
/// archetypes, none is empty, and they come in the order of the rows:
/// no row lies in two of them.
pub open spec fn batches_ordered(
    shape: QueryShape,
    world: WorldView,
    generation: nat,
    batch_size: usize,
    batches: Seq<Batch>,
) -> bool {
    &&& forall|i: int|
        0 <= i < batches.len() ==> {
            let batch = #[trigger] batches[i];
            &&& batch.archetype_id < generation
            &&& shape.matches(world.archetypes[batch.archetype_id as int].components)
            &&& batch.start < batch.end
                <= world.archetypes[batch.archetype_id as int].entities.len()
            &&& batch.end - batch.start <= batch_size
        }
    &&& forall|i: int, j: int|
        0 <= i < j < batches.len() ==> (#[trigger] batches[i]).archetype_id < (
        #[trigger] batches[j]).archetype_id || (batches[i].archetype_id == batches[j].archetype_id
            && batches[i].end <= batches[j].start)
}

/// A query that has been set up: it knows which archetypes it matches
/// among those it has seen, and which archetype components it touches.
pub struct QueryState {
    pub(crate) fetches: Vec<Fetch>,
    pub(crate) filters: Vec<Filter>,
    pub(crate) uses: Vec<Option<TermUse>>,
    pub(crate) component_access: FilteredAccess,
    pub(crate) archetype_component_access: Access,
    pub(crate) matched_archetypes: Vec<ArchetypeId>,
    pub(crate) archetype_generation: usize,
}

impl QueryState {
    /// What the query asks for.
    pub closed spec fn shape(&self) -> QueryShape {
        QueryShape { fetches: self.fetches@, filters: self.filters@ }
    }

    /// How many archetypes of the store the query has seen.
    pub closed spec fn generation(&self) -> nat {
        self.archetype_generation as nat
    }

    /// The archetypes that the query matches among those it has seen, in
    /// increasing order.
    pub closed spec fn matched(&self) -> Seq<ArchetypeId> {
        self.matched_archetypes@
    }

    /// The footprint of the query over archetype components.
    pub closed spec fn access(&self) -> AccessView {
        self.archetype_component_access@
    }

    /// The footprint of the query over component types.
    pub closed spec fn filtered_access(&self) -> FilteredAccessView {
        self.component_access@
    }

    /// The state holds the footprint of its shape.
    pub closed spec fn wf(&self) -> bool {
        &&& self.uses@ == self.shape().uses()
        &&& self.component_access@ == self.shape().component_access()
    }

    /// The state was set up for a store that showed `world`, or an
    /// earlier state of it.
    pub closed spec fn valid_for(&self, world: WorldView) -> bool {
        &&& self.wf()
        &&& self.shape().error(world.registry.len()).is_none()
        &&& self.archetype_generation <= world.archetypes.len()
        &&& strictly_sorted(self.matched_archetypes@)
        &&& forall|a: usize|
            self.matched_archetypes@.contains(a) <==> a < self.archetype_generation
                && self.shape().matches(world.archetypes[a as int].components)
        &&& self.archetype_component_access@ == self.shape().archetype_component_access(
            world,
            self.archetype_generation as int,
        )
    }

    /// What a valid state holds.
    pub proof fn lemma_valid(&self, world: WorldView)
        requires
            self.valid_for(world),
        ensures
            self.wf(),
            self.generation() <= world.archetypes.len(),
            self.shape().error(world.registry.len()).is_none(),
            self.filtered_access() == self.shape().component_access(),
            self.access() == self.shape().archetype_component_access(world,
                self.generation() as int),
            strictly_sorted(self.matched()),
            forall|a: usize|
                self.matched().contains(a) <==> a < self.generation() && self.shape().matches(
                    world.archetypes[a as int].components,
                ),
    {
    }

    /// A state that is valid for a view is valid for every later view.
    pub proof fn lemma_valid_extends(&self, earlier: WorldView, later: WorldView)
        requires
            self.valid_for(earlier),
            later.extends(earlier),
        ensures
            self.valid_for(later),
    {
        let shape = self.shape();
        let n = self.archetype_generation as int;
        lemma_error_monotone(
            shape.uses(),
            earlier.registry.len(),
            later.registry.len(),
            shape.uses().len() as int,
        );
        assert forall|id: usize, write: bool|
            shape.touches(later, n, id, write) == shape.touches(earlier, n, id, write) by {
            if shape.touches(later, n, id, write) {
                let a = choose|a: int|
                    0 <= a < n && shape.touches_in(
                        later,
                        a,
                        later.archetypes[a].components.len() as int,
                        id,
                        write,
                    );
                let k = choose|k: int|
                    0 <= k < later.archetypes[a].components.len() && shape.touches_at(
                        later,
                        a,
                        k,
                        id,
                        write,
                    );
                assert(shape.touches_at(earlier, a, k, id, write));
                assert(shape.touches_in(
                    earlier,
                    a,
                    earlier.archetypes[a].components.len() as int,
                    id,
                    write,
                ));
            }
            if shape.touches(earlier, n, id, write) {
                let a = choose|a: int|
                    0 <= a < n && shape.touches_in(
                        earlier,
                        a,
                        earlier.archetypes[a].components.len() as int,
                        id,
                        write,
                    );
                let k = choose|k: int|
                    0 <= k < earlier.archetypes[a].components.len() && shape.touches_at(
                        earlier,
                        a,
                        k,
                        id,
                        write,
                    );
                assert(shape.touches_at(later, a, k, id, write));
                assert(shape.touches_in(
                    later,
                    a,
                    later.archetypes[a].components.len() as int,
                    id,
                    write,
                ));
            }
        }
        assert(shape.archetype_component_access(later, n).reads_and_writes
            =~= shape.archetype_component_access(earlier, n).reads_and_writes);
        assert(shape.archetype_component_access(later,
            n).writes =~= shape.archetype_component_access(
            earlier,
            n,
        ).writes);
    }

    /// Sets up a query for the store. The query is refused if one of its
    /// terms names a component type that is not registered, or if two of
    /// its terms would alias: one writes a component type that the other
    /// reads or writes.
    pub fn new(world: &World, fetches: Vec<Fetch>, filters: Vec<Filter>) -> (r: Result<
        QueryState,
        QueryError,
    >)
        requires
            world.wf(),
        ensures
            match (QueryShape { fetches: fetches@, filters: filters@ }).error(
                world@.registry.len(),
            ) {
                Some(error) => r == Err::<QueryState, QueryError>(error),
                None => r matches Ok(state) && state.shape() == (QueryShape {
                    fetches: fetches@,
                    filters: filters@,
                }) && state.valid_for(world@) && state.generation() == world@.archetypes.len(),
            },
    {
        let uses = shape_uses(&fetches, &filters);
        let checked = check_uses(&uses, world.components().len());
        match checked {
            Err(error) => Err(error),
            Ok(component_access) => {
                let mut state = QueryState {
                    fetches,
                    filters,
                    uses,
                    component_access,
                    archetype_component_access: Access::new(),
                    matched_archetypes: Vec::new(),
                    archetype_generation: 0,
                };
                proof {
                    let shape = state.shape();
                    assert(shape.archetype_component_access(world@, 0).reads_and_writes
                        =~= Set::<usize>::empty());
                    assert(shape.archetype_component_access(world@, 0).writes =~= Set::<
                        usize,
                    >::empty());
                }
                state.update_archetypes(world);
                Ok(state)
            },
        }
    }

    /// True iff entities with the component types of the archetype meet
    /// the conditions of the query on what they hold.
    pub fn matches_archetype(&self, archetype: &Archetype) -> (r: bool)
        requires
            self.wf(),
        ensures
            r == self.shape().matches(archetype.component_ids()),
    {
        let mut j: usize = 0;
        while j < self.uses.len()
            invariant
                j <= self.uses@.len(),
                self.uses@ == self.shape().uses(),
                forall|i: int|
                    0 <= i < j ==> match #[trigger] self.shape().uses()[i] {
                        None => true,
                        Some(u) => (u.with ==> archetype.component_ids().contains(u.component)) && (
                        u.without ==> !archetype.component_ids().contains(u.component)),
                    },
            decreases self.uses@.len() - j,
        {
            match self.uses[j] {
                None => {},
                Some(u) => {
                    let held = archetype.contains(u.component);
                    if (u.with && !held) || (u.without && held) {
                        assert(self.shape().uses()[j as int] == Some(u));
                        return false;
                    }
                },
            }
            j += 1;
        }
        true
    }

    /// Takes note of the archetypes that the store has created since the
    /// query last looked.
    pub fn update_archetypes(&mut self, world: &World)
        requires
            world.wf(),
            old(self).valid_for(world@),
        ensures
            final(self).valid_for(world@),
            final(self).shape() == old(self).shape(),
            final(self).filtered_access() == old(self).filtered_access(),
            final(self).generation() == world@.archetypes.len(),
            final(self).access().covers(old(self).access()),
    {
        while self.archetype_generation < world.archetype_count()
            invariant
                world.wf(),
                self.valid_for(world@),
                self.shape() == old(self).shape(),
                old(self).archetype_generation <= self.archetype_generation,
            decreases world@.archetypes.len() - self.archetype_generation,
        {
            let a: usize = self.archetype_generation;
            let archetype = world.archetype(a);
            proof {
                world.lemma_view_wf();
            }
            self.new_archetype(archetype, Ghost(world@));
        }
        proof {
            let shape = self.shape();
            let before = old(self).archetype_generation as int;
            let now = self.archetype_generation as int;
            assert forall|id: usize, write: bool|
                shape.touches(world@, before, id, write) implies #[trigger] shape.touches(
                world@,
                now,
                id,
                write,
            ) by {
                let a = choose|a: int|
                    0 <= a < before && shape.touches_in(
                        world@,
                        a,
                        world@.archetypes[a].components.len() as int,
                        id,
                        write,
                    );
                assert(0 <= a < now && shape.touches_in(
                    world@,
                    a,
                    world@.archetypes[a].components.len() as int,
                    id,
                    write,
                ));
            }
            assert forall|id: usize| old(self).access().has_read(id)
                implies #[trigger] self.access().has_read(
                id,
            ) by {
                assert(shape.touches(world@, before, id, false));
                assert(shape.touches(world@, now, id, false));
            }
            assert forall|id: usize| old(self).access().has_write(id)
                implies #[trigger] self.access().has_write(
                id,
            ) by {
                assert(shape.touches(world@, before, id, true));
                assert(shape.touches(world@, now, id, true));
            }
        }
    }

    /// Takes note of the next archetype of the store.
    fn new_archetype(&mut self, archetype: &Archetype, Ghost(world): Ghost<WorldView>)
        requires
            old(self).valid_for(world),
            world.wf(),
            world.archetypes.len() <= usize::MAX,
            old(self).archetype_generation < world.archetypes.len(),
            archetype.spec_id() == old(self).archetype_generation,
            archetype.component_ids()
                == world.archetypes[old(self).archetype_generation as int].components,
            archetype.component_access_ids()
                == world.archetypes[old(self).archetype_generation as int].access_ids,
        ensures
            final(self).valid_for(world),
            final(self).shape() == old(self).shape(),
            final(self).archetype_generation == old(self).archetype_generation + 1,
    {
        let a: usize = self.archetype_generation;
        let ghost shape = self.shape();
        let ghost before = self.archetype_component_access@;
        let matches = self.matches_archetype(archetype);
        if matches {
            let n: usize = archetype.components.len();
            let mut k: usize = 0;
            while k < n
                invariant
                    k <= n,
                    n == archetype.components@.len(),
                    a < world.archetypes.len(),
                    world.wf(),
                    archetype.component_ids() == world.archetypes[a as int].components,
                    archetype.component_access_ids() == world.archetypes[a as int].access_ids,
                    shape.matches(world.archetypes[a as int].components),
                    shape == self.shape(),
                    self.fetches == old(self).fetches,
                    self.filters == old(self).filters,
                    self.uses == old(self).uses,
                    self.component_access == old(self).component_access,
                    self.matched_archetypes == old(self).matched_archetypes,
                    self.archetype_generation == old(self).archetype_generation,
                    self.component_access@ == shape.component_access(),
                    !self.archetype_component_access@.reads_all,
                    forall|id: usize| #[trigger]
                        self.archetype_component_access@.reads_and_writes.contains(id)
                            <==> before.reads_and_writes.contains(id) || shape.touches_in(
                            world,
                            a as int,
                            k as int,
                            id,
                            false,
                        ),
                    forall|id: usize| #[trigger]
                        self.archetype_component_access@.writes.contains(id)
                            <==> before.writes.contains(
                            id,
                        ) || shape.touches_in(world, a as int, k as int, id, true),
                decreases n - k,
            {
                let c: ComponentId = archetype.components[k];
                let id: usize = archetype.archetype_component_ids[k];
                let ghost current = self.archetype_component_access@;
                if self.component_access.access().has_write(c) {
                    self.archetype_component_access.add_write(id);
                } else if self.component_access.access().has_read(c) {
                    self.archetype_component_access.add_read(id);
                }
                proof {
                    let all = shape.uses().len() as int;
                    lemma_write_is_access(shape.uses(), all, c);
                    assert(old(self).component_access@.access.writes.contains(c) == used(
                        shape.uses(),
                        all,
                        c,
                        UseKind::Write,
                    ));
                    assert(old(self).component_access@.access.reads_and_writes.contains(c) == used(
                        shape.uses(),
                        all,
                        c,
                        UseKind::Access,
                    ));
                    assert forall|x: usize| #[trigger]
                        self.archetype_component_access@.reads_and_writes.contains(x)
                            <==> before.reads_and_writes.contains(x) || shape.touches_in(
                            world,
                            a as int,
                            k + 1,
                            x,
                            false,
                        ) by {
                        shape.lemma_touches_in_step(world, a as int, k as int, x, false);
                        assert(shape.touches_at(world, a as int, k as int, x, false) == (x == id
                            && used(shape.uses(), all, c, UseKind::Access)));
                        assert(current.reads_and_writes.contains(x)
                            <==> before.reads_and_writes.contains(x) || shape.touches_in(
                            world,
                            a as int,
                            k as int,
                            x,
                            false,
                        ));
                    }
                    assert forall|x: usize| #[trigger]
                        self.archetype_component_access@.writes.contains(x)
                            <==> before.writes.contains(
                            x,
                        ) || shape.touches_in(world, a as int, k + 1, x, true) by {
                        shape.lemma_touches_in_step(world, a as int, k as int, x, true);
                        assert(shape.touches_at(world, a as int, k as int, x, true) == (x == id
                            && used(shape.uses(), all, c, UseKind::Write)));
                        assert(current.writes.contains(x) <==> before.writes.contains(x)
                            || shape.touches_in(world, a as int, k as int, x, true));
                    }
                }
                k += 1;
            }
            self.matched_archetypes.push(a);
        }
        self.archetype_generation = a + 1;
        proof {
            let after = shape.archetype_component_access(world, a + 1);
            assert forall|id: usize|
                self.archetype_component_access@.reads_and_writes.contains(id)
                    == after.reads_and_writes.contains(id) by {
                shape.lemma_touches_step(world, a as int, id, false);
                if !matches {
                    if shape.touches_in(
                        world,
                        a as int,
                        world.archetypes[a as int].components.len() as int,
                        id,
                        false,
                    ) {
                        let k = choose|k: int|
                            0 <= k < world.archetypes[a as int].components.len()
                                && shape.touches_at(
                                world,
                                a as int,
                                k,
                                id,
                                false,
                            );
                    }
                }
            }
            assert forall|id: usize|
                self.archetype_component_access@.writes.contains(id)
                    == after.writes.contains(id) by {
                shape.lemma_touches_step(world, a as int, id, true);
                if !matches {
                    if shape.touches_in(
                        world,
                        a as int,
                        world.archetypes[a as int].components.len() as int,
                        id,
                        true,
                    ) {
                        let k = choose|k: int|
                            0 <= k < world.archetypes[a as int].components.len()
                                && shape.touches_at(
                                world,
                                a as int,
                                k,
                                id,
                                true,
                            );
                    }
                }
            }
            assert(self.archetype_component_access@.reads_and_writes =~= after.reads_and_writes);
            assert(self.archetype_component_access@.writes =~= after.writes);
            let before_matched = old(self).matched_archetypes@;
            let now = self.matched_archetypes@;
            assert forall|i: int, j: int| 0 <= i < j < now.len() implies now[i] < now[j] by {
                if j < before_matched.len() {
                    assert(before_matched[i] < before_matched[j]);
                } else {
                    assert(before_matched.contains(before_matched[i]));
                }
            }
            assert forall|x: usize|
                now.contains(x) <==> x < a + 1
                    && shape.matches(world.archetypes[x as int].components) by {
                if now.contains(x) {
                    let i = choose|i: int| 0 <= i < now.len() && now[i] == x;
                    if i < before_matched.len() {
                        assert(before_matched.contains(x));
                    }
                }
                if x < a && shape.matches(world.archetypes[x as int].components) {
                    assert(before_matched.contains(x));
                    let i = choose|i: int| 0 <= i < before_matched.len() && before_matched[i] == x;
                    assert(now[i] == x);
                }
                if x == a && matches {
                    assert(now[now.len() - 1] == x);
                }
            }
        }
    }

    /// For each fetch term and for each filter term, the place that the
    /// component of the term has in the archetype, if it has one.
    fn plan(&self, archetype: &Archetype) -> (r: (Vec<Option<usize>>, Vec<Option<usize>>))
        ensures
            r.0@.len() == self.fetches@.len(),
            r.1@.len() == self.filters@.len(),
            forall|i: int|
                0 <= i < self.fetches@.len() ==> match #[trigger] r.0@[i] {
                    Some(k) => k < archetype.components@.len() && self.fetches@[i].component()
                        == Some(archetype.components@[k as int]),
                    None => match self.fetches@[i].component() {
                        Some(c) => !archetype.components@.contains(c),
                        None => true,
                    },
                },
            forall|j: int|
                0 <= j < self.filters@.len() ==> match #[trigger] r.1@[j] {
                    Some(k) => k < archetype.components@.len() && self.filters@[j].component()
                        == archetype.components@[k as int],
                    None => !archetype.components@.contains(self.filters@[j].component()),
                },
    {
        let mut fetch_plan: Vec<Option<usize>> = Vec::new();
        let mut i: usize = 0;
        while i < self.fetches.len()
            invariant
                i <= self.fetches@.len(),
                fetch_plan@.len() == i,
                forall|x: int|
                    0 <= x < i ==> match #[trigger] fetch_plan@[x] {
                        Some(k) => k < archetype.components@.len() && self.fetches@[x].component()
                            == Some(archetype.components@[k as int]),
                        None => match self.fetches@[x].component() {
                            Some(c) => !archetype.components@.contains(c),
                            None => true,
                        },
                    },
            decreases self.fetches@.len() - i,
        {
            match self.fetches[i].component_id() {
                Some(c) => {
                    fetch_plan.push(archetype.index_of(c));
                },
                None => {
                    fetch_plan.push(None);
                },
            }
            i += 1;
        }
        let mut filter_plan: Vec<Option<usize>> = Vec::new();
        let mut j: usize = 0;
        while j < self.filters.len()
            invariant
                j <= self.filters@.len(),
                filter_plan@.len() == j,
                forall|x: int|
                    0 <= x < j ==> match #[trigger] filter_plan@[x] {
                        Some(k) => k < archetype.components@.len() && self.filters@[x].component()
                            == archetype.components@[k as int],
                        None => !archetype.components@.contains(self.filters@[x].component()),
                    },
            decreases self.filters@.len() - j,
        {
            filter_plan.push(archetype.index_of(self.filters[j].component_id()));
            j += 1;
        }
        (fetch_plan, filter_plan)
    }

    /// True iff the entity in a row of a matching archetype meets the
    /// conditions of the query on its counters.
    fn row_passes(
        &self,
        world: &World,
        a: ArchetypeId,
        row: usize,
        filter_plan: &Vec<Option<usize>>,
        system_counter: u32,
        global_system_counter: u32,
    ) -> (r: bool)
        requires
            world.wf(),
            a < world@.archetypes.len(),
            row < world@.archetypes[a as int].entities.len(),
            self.shape().matches(world@.archetypes[a as int].components),
            filter_plan@.len() == self.filters@.len(),
            forall|j: int|
                0 <= j < self.filters@.len() ==> match #[trigger] filter_plan@[j] {
                    Some(k) => k < world@.archetypes[a as int].components.len()
                        && self.filters@[j].component()
                            == world@.archetypes[a as int].components[k as int],
                    None => !world@.archetypes[a as int].components.contains(
                        self.filters@[j].component(),
                    ),
                },
        ensures
            r == self.shape().passes(
                world@.entities[world@.archetypes[a as int].entities[row as int]],
                system_counter,
                global_system_counter,
            ),
    {
        let ghost cells = world@.entities[world@.archetypes[a as int].entities[row as int]];
        let ghost shape = self.shape();
        let mut j: usize = 0;
        while j < self.filters.len()
            invariant
                j <= self.filters@.len(),
                world.wf(),
                a < world@.archetypes.len(),
                row < world@.archetypes[a as int].entities.len(),
                shape == self.shape(),
                shape.matches(world@.archetypes[a as int].components),
                cells == world@.entities[world@.archetypes[a as int].entities[row as int]],
                filter_plan@.len() == self.filters@.len(),
                forall|x: int|
                    0 <= x < self.filters@.len() ==> match #[trigger] filter_plan@[x] {
                        Some(k) => k < world@.archetypes[a as int].components.len()
                            && self.filters@[x].component()
                                == world@.archetypes[a as int].components[k as int],
                        None => !world@.archetypes[a as int].components.contains(
                            self.filters@[x].component(),
                        ),
                    },
                forall|x: int|
                    0 <= x < j ==> match #[trigger] shape.filters[x] {
                        Filter::Added(c) => cells[c].counters.added_since(
                            system_counter,
                            global_system_counter,
                        ),
                        Filter::Changed(c) => cells[c].counters.changed_since(
                            system_counter,
                            global_system_counter,
                        ),
                        _ => true,
                    },
            decreases self.filters@.len() - j,
        {
            let filter = self.filters[j];
            let place = filter_plan[j];
            let holds = match filter {
                Filter::Added(c) => {
                    match place {
                        Some(k) => world.cell_at(a, k, row).counters.is_added(
                            system_counter,
                            global_system_counter,
                        ),
                        None => {
                            proof {
                                let at = self.fetches@.len() + j;
                                assert(shape.uses()[at] == Some(filter.term_use()));
                            }
                            false
                        },
                    }
                },
                Filter::Changed(c) => {
                    match place {
                        Some(k) => world.cell_at(a, k, row).counters.is_changed(
                            system_counter,
                            global_system_counter,
                        ),
                        None => {
                            proof {
                                let at = self.fetches@.len() + j;
                                assert(shape.uses()[at] == Some(filter.term_use()));
                            }
                            false
                        },
                    }
                },
                _ => true,
            };
            if !holds {
                assert(shape.filters[j as int] == filter);
                return false;
            }
            j += 1;
        }
        true
    }

    /// The item of the entity in a row of an archetype.
    fn row_item(&self, world: &World, a: ArchetypeId, row: usize,
        fetch_plan: &Vec<Option<usize>>) -> (item:
        QueryItem)
        requires
            world.wf(),
            a < world@.archetypes.len(),
            row < world@.archetypes[a as int].entities.len(),
            fetch_plan@.len() == self.fetches@.len(),
            forall|i: int|
                0 <= i < self.fetches@.len() ==> match #[trigger] fetch_plan@[i] {
                    Some(k) => k < world@.archetypes[a as int].components.len()
                        && self.fetches@[i].component() == Some(
                        world@.archetypes[a as int].components[k as int],
                    ),
                    None => match self.fetches@[i].component() {
                        Some(c) => !world@.archetypes[a as int].components.contains(c),
                        None => true,
                    },
                },
        ensures
            item@ == self.shape().item(
                world@.archetypes[a as int].entities[row as int],
                world@.entities[world@.archetypes[a as int].entities[row as int]],
            ),
    {
        let entity = world.entity_at(a, row);
        let ghost cells = world@.entities[entity];
        let ghost components = world@.archetypes[a as int].components;
        proof {
            world.lemma_view_wf();
            assert(world@.locations.contains_key(entity));
            assert(cells.dom() =~= components.to_set());
        }
        let mut values: Vec<Option<u64>> = Vec::new();
        let mut i: usize = 0;
        while i < self.fetches.len()
            invariant
                i <= self.fetches@.len(),
                world.wf(),
                a < world@.archetypes.len(),
                row < world@.archetypes[a as int].entities.len(),
                entity == world@.archetypes[a as int].entities[row as int],
                cells == world@.entities[entity],
                components == world@.archetypes[a as int].components,
                cells.dom() == components.to_set(),
                fetch_plan@.len() == self.fetches@.len(),
                forall|x: int|
                    0 <= x < self.fetches@.len() ==> match #[trigger] fetch_plan@[x] {
                        Some(k) => k < components.len() && self.fetches@[x].component() == Some(
                            components[k as int],
                        ),
                        None => match self.fetches@[x].component() {
                            Some(c) => !components.contains(c),
                            None => true,
                        },
                    },
                values@.len() == i,
                forall|x: int|
                    0 <= x < i ==> #[trigger] values@[x]
                        == self.shape().item(entity, cells).values[x],
            decreases self.fetches@.len() - i,
        {
            match fetch_plan[i] {
                Some(k) => {
                    let cell = world.cell_at(a, k, row);
                    proof {
                        assert(components.contains(components[k as int]));
                        assert(components.to_set().contains(components[k as int]));
                    }
                    values.push(Some(cell.value));
                },
                None => {
                    proof {
                        match self.fetches@[i as int].component() {
                            Some(c) => {
                                assert(!components.to_set().contains(c));
                            },
                            None => {},
                        }
                    }
                    values.push(None);
                },
            }
            i += 1;
        }
        let item = QueryItem { entity, values };
        assert(item@.values =~= self.shape().item(entity, cells).values);
        item
    }

    /// The items of the query over the archetypes that it has seen:
    /// archetypes in order of creation, the entities of each in row order.
    pub fn iter_manual(&self, world: &World, system_counter: u32,
        global_system_counter: u32) -> (items:
        Vec<QueryItem>)
        requires
            world.wf(),
            self.valid_for(world@),
        ensures
            items_view(items@) == self.shape().items(
                world@,
                self.generation() as int,
                system_counter,
                global_system_counter,
            ),
    {
        let ghost shape = self.shape();
        let ghost v = world@;
        let mut items: Vec<QueryItem> = Vec::new();
        let mut m: usize = 0;
        proof {
            let first = if self.matched_archetypes@.len() > 0 {
                self.matched_archetypes@[0] as int
            } else {
                self.archetype_generation as int
            };
            if self.matched_archetypes@.len() > 0 {
                assert(self.matched_archetypes@.contains(self.matched_archetypes@[0]));
            }
            assert forall|a: int| 0 <= a < first implies !shape.matches(
                 #[trigger] v.archetypes[a].components) by {
                if shape.matches(v.archetypes[a].components) {
                    assert(self.matched_archetypes@.contains(a as usize));
                    let i = choose|i: int|
                        0 <= i < self.matched_archetypes@.len()
                            && self.matched_archetypes@[i] == a as usize;
                    if i > 0 {
                        assert(self.matched_archetypes@[0] < self.matched_archetypes@[i]);
                    }
                }
            }
            shape.lemma_items_skip(v, 0, first, system_counter, global_system_counter);
            assert(items_view(items@) =~= shape.items(v, 0, system_counter, global_system_counter));
        }
        while m < self.matched_archetypes.len()
            invariant
                m <= self.matched_archetypes@.len(),
                world.wf(),
                v == world@,
                shape == self.shape(),
                self.valid_for(v),
                items_view(items@) == shape.items(
                    v,
                    if m < self.matched_archetypes@.len() {
                        self.matched_archetypes@[m as int] as int
                    } else {
                        self.archetype_generation as int
                    },
                    system_counter,
                    global_system_counter,
                ),
            decreases self.matched_archetypes@.len() - m,
        {
            let a: usize = self.matched_archetypes[m];
            proof {
                assert(self.matched_archetypes@.contains(a));
            }
            let archetype = world.archetype(a);
            let (fetch_plan, filter_plan) = self.plan(archetype);
            let rows: usize = archetype.len();
            let mut row: usize = 0;
            proof {
                assert(items_view(items@) + shape.row_items(
                    v,
                    a as int,
                    0,
                    system_counter,
                    global_system_counter,
                ) =~= items_view(items@));
            }
            while row < rows
                invariant
                    row <= rows,
                    rows == v.archetypes[a as int].entities.len(),
                    world.wf(),
                    v == world@,
                    shape == self.shape(),
                    a < v.archetypes.len(),
                    shape.matches(v.archetypes[a as int].components),
                    archetype.component_ids() == v.archetypes[a as int].components,
                    fetch_plan@.len() == self.fetches@.len(),
                    filter_plan@.len() == self.filters@.len(),
                    forall|i: int|
                        0 <= i < self.fetches@.len() ==> match #[trigger] fetch_plan@[i] {
                            Some(k) => k < archetype.components@.len()
                                && self.fetches@[i].component() == Some(
                                archetype.components@[k as int],
                            ),
                            None => match self.fetches@[i].component() {
                                Some(c) => !archetype.components@.contains(c),
                                None => true,
                            },
                        },
                    forall|j: int|
                        0 <= j < self.filters@.len() ==> match #[trigger] filter_plan@[j] {
                            Some(k) => k < archetype.components@.len()
                                && self.filters@[j].component() == archetype.components@[k as int],
                            None => !archetype.components@.contains(self.filters@[j].component()),
                        },
                    items_view(items@) == shape.items(
                        v,
                        a as int,
                        system_counter,
                        global_system_counter,
                    ) + shape.row_items(
                        v,
                        a as int,
                        row as int,
                        system_counter,
                        global_system_counter,
                    ),
                decreases rows - row,
            {
                let ghost before = items_view(items@);
                if self.row_passes(
                    world,
                    a,
                    row,
                    &filter_plan,
                    system_counter,
                    global_system_counter,
                ) {
                    let item = self.row_item(world, a, row, &fetch_plan);
                    items.push(item);
                    proof {
                        assert(items_view(items@) =~= before.push(item@));
                    }
                }
                proof {
                    assert(items_view(items@) =~= shape.items(
                        v,
                        a as int,
                        system_counter,
                        global_system_counter,
                    ) + shape.row_items(
                        v,
                        a as int,
                        row + 1,
                        system_counter,
                        global_system_counter,
                    ));
                }
                row += 1;
            }
            proof {
                let next = if m + 1 < self.matched_archetypes@.len() {
                    self.matched_archetypes@[m + 1] as int
                } else {
                    self.archetype_generation as int
                };
                if m + 1 < self.matched_archetypes@.len() {
                    assert(self.matched_archetypes@.contains(self.matched_archetypes@[m + 1]));
                }
                assert forall|x: int| a + 1 <= x < next implies !shape.matches(
                     #[trigger] v.archetypes[x].components) by {
                    if shape.matches(v.archetypes[x].components) {
                        assert(self.matched_archetypes@.contains(x as usize));
                        let i = choose|i: int|
                            0 <= i < self.matched_archetypes@.len() && self.matched_archetypes@[i]
                                == x as usize;
                        if i <= m {
                            if i < m {
                                assert(self.matched_archetypes@[i]
                                    < self.matched_archetypes@[m as int]);
                            }
                        } else if i > m + 1 {
                            assert(self.matched_archetypes@[m + 1] < self.matched_archetypes@[i]);
                        }
                    }
                }
                if m + 1 < self.matched_archetypes@.len() {
                    assert(self.matched_archetypes@[m as int] < self.matched_archetypes@[m + 1]);
                    assert(self.matched_archetypes@.contains(self.matched_archetypes@[m + 1]));
                }
                shape.lemma_items_skip(v, a + 1, next, system_counter, global_system_counter);
            }
            m += 1;
        }
        items
    }

    /// The items of the query over all archetypes of the store.
    pub fn iter(&mut self, world: &World, system_counter: u32,
        global_system_counter: u32) -> (items:
        Vec<QueryItem>)
        requires
            world.wf(),
            old(self).valid_for(world@),
        ensures
            final(self).valid_for(world@),
            final(self).shape() == old(self).shape(),
            final(self).generation() == world@.archetypes.len(),
            items_view(items@) == old(self).shape().items(
                world@,
                world@.archetypes.len() as int,
                system_counter,
                global_system_counter,
            ),
    {
        self.update_archetypes(world);
        self.iter_manual(world, system_counter, global_system_counter)
    }

    /// The item of one entity. The entity has none if it is not live, if
    /// its archetype is not among those the query has seen and matches,
    /// or if it does not meet the conditions on its counters.
    pub fn get_manual(
        &self,
        world: &World,
        entity: Entity,
        system_counter: u32,
        global_system_counter: u32,
    ) -> (r: Result<QueryItem, QueryEntityError>)
        requires
            world.wf(),
            self.valid_for(world@),
        ensures
            !world@.contains(entity) ==> r == Err::<QueryItem, QueryEntityError>(
                QueryEntityError::NoSuchEntity,
            ),
            world@.contains(entity) && !(world@.locations[entity].archetype_id < self.generation()
                && self.shape().selects(world@, entity, system_counter, global_system_counter))
                    ==> r
                == Err::<QueryItem, QueryEntityError>(QueryEntityError::NoMatch),
            world@.contains(entity) && world@.locations[entity].archetype_id < self.generation()
                && self.shape().selects(world@, entity, system_counter, global_system_counter) ==> (
            r matches Ok(item) && item@ == self.shape().item(entity, world@.entities[entity])),
    {
        let loc = match world.location(entity) {
            Some(loc) => loc,
            None => {
                return Err(QueryEntityError::NoSuchEntity);
            },
        };
        proof {
            world.lemma_view_wf();
            assert(world@.locations.contains_key(entity));
        }
        if loc.archetype_id >= self.archetype_generation {
            return Err(QueryEntityError::NoMatch);
        }
        let archetype = world.archetype(loc.archetype_id);
        if !self.matches_archetype(archetype) {
            return Err(QueryEntityError::NoMatch);
        }
        let (fetch_plan, filter_plan) = self.plan(archetype);
        if !self.row_passes(
            world,
            loc.archetype_id,
            loc.index,
            &filter_plan,
            system_counter,
            global_system_counter,
        ) {
            return Err(QueryEntityError::NoMatch);
        }
        Ok(self.row_item(world, loc.archetype_id, loc.index, &fetch_plan))
    }

    /// The footprint of the query over archetype components.
    pub fn archetype_component_access(&self) -> (access: &Access)
        ensures
            access@ == self.access(),
    {
        &self.archetype_component_access
    }

    /// The footprint of the query over component types.
    pub fn component_access(&self) -> (access: &FilteredAccess)
        ensures
            access@ == self.filtered_access(),
    {
        &self.component_access
    }

    /// Carries out a write that is asked for through the write access of
    /// this query, at the global counter `tick`. The write is refused
    /// unless the entity holds the component and the query has write
    /// access to it. True iff the write was carried out.
    pub fn write(
        &self,
        world: &mut World,
        entity: Entity,
        component_id: ComponentId,
        value: u64,
        system_counter: u32,
        tick: u32,
    ) -> (applied: bool)
        requires
            old(world).wf(),
            self.valid_for(old(world)@),
        ensures
            final(world).wf(),
            self.valid_for(final(world)@),
            applied == write_applies(
                old(world)@,
                seq![self.access()],
                ComponentWrite { query: 0, entity, component_id, value },
            ),
            final(world)@ == apply_write(
                old(world)@,
                seq![self.access()],
                ComponentWrite { query: 0, entity, component_id, value },
                tick,
            ),
    {
        let ghost before = world@;
        let held = match world.archetype_component_id(entity, component_id) {
            Some(id) => self.archetype_component_access.has_write(id),
            None => false,
        };
        if !held {
            return false;
        }
        proof {
            assert forall|cell: Stored|
                self.valid_for(#[trigger] before.with_cell(entity, component_id, cell)) by {
                let after = before.with_cell(entity, component_id, cell);
                assert(after.extends(before));
                self.lemma_valid_extends(before, after);
            }
        }
        match world.get_mut_manual(entity, component_id, system_counter, tick) {
            Some(mut m) => {
                m.set(value);
            },
            None => {},
        }
        true
    }

    /// Calls `f` on each item of the query, in the order of the items,
    /// and carries out the writes that the answers ask for: where a
    /// fetch term fetches for writing and the answer holds a value at
    /// the place of the term, the value is written into the component
    /// of the item's entity and the write is recorded at
    /// `global_system_counter`.
    pub fn for_each_mut_manual<F: Fn(&QueryItem) -> Vec<Option<u64>>>(
        &self,
        world: &mut World,
        f: F,
        system_counter: u32,
        global_system_counter: u32,
    )
        requires
            old(world).wf(),
            self.valid_for(old(world)@),
            forall|item: &QueryItem| #[trigger] f.requires((item,)),
        ensures
            final(world).wf(),
            self.valid_for(final(world)@),
            same_placement(old(world)@, final(world)@),
            exists|items: Seq<QueryItem>, outs: Seq<Vec<Option<u64>>>| #[trigger]
                answered_by(
                    f,
                    old(world)@,
                    final(world)@,
                    self.access(),
                    self.shape(),
                    self.generation() as int,
                    system_counter,
                    global_system_counter,
                    items,
                    outs,
                ),
    {
        let items = self.iter_manual(&*world, system_counter, global_system_counter);
        self.apply_answers(world, &items, f, system_counter, global_system_counter);
    }

    /// As [`QueryState::for_each_mut_manual`], with the items gathered
    /// batch by batch, in batches of at most `batch_size` rows.
    pub fn par_for_each_mut_manual<F: Fn(&QueryItem) -> Vec<Option<u64>>>(
        &self,
        world: &mut World,
        batch_size: usize,
        f: F,
        system_counter: u32,
        global_system_counter: u32,
    )
        requires
            old(world).wf(),
            self.valid_for(old(world)@),
            batch_size > 0,
            forall|item: &QueryItem| #[trigger] f.requires((item,)),
        ensures
            final(world).wf(),
            self.valid_for(final(world)@),
            same_placement(old(world)@, final(world)@),
            exists|items: Seq<QueryItem>, outs: Seq<Vec<Option<u64>>>| #[trigger]
                answered_by(
                    f,
                    old(world)@,
                    final(world)@,
                    self.access(),
                    self.shape(),
                    self.generation() as int,
                    system_counter,
                    global_system_counter,
                    items,
                    outs,
                ),
    {
        let items = self.batched_items(&*world, batch_size, system_counter, global_system_counter);
        self.apply_answers(world, &items, f, system_counter, global_system_counter);
    }

    /// The items of the query, gathered batch by batch, in batches of at
    /// most `batch_size` rows.
    pub fn batched_items(
        &self,
        world: &World,
        batch_size: usize,
        system_counter: u32,
        global_system_counter: u32,
    ) -> (items: Vec<QueryItem>)
        requires
            world.wf(),
            self.valid_for(world@),
            batch_size > 0,
        ensures
            items_view(items@) == self.shape().items(
                world@,
                self.generation() as int,
                system_counter,
                global_system_counter,
            ),
    {
        let batches = self.batches(world, batch_size);
        let ghost shape = self.shape();
        let mut items: Vec<QueryItem> = Vec::new();
        let mut b: usize = 0;
        proof {
            assert(items_view(items@) =~= batch_items(
                shape,
                world@,
                batches@,
                0,
                system_counter,
                global_system_counter,
            ));
        }
        while b < batches.len()
            invariant
                b <= batches@.len(),
                world.wf(),
                self.valid_for(world@),
                shape == self.shape(),
                batches_ordered(shape, world@, self.generation(), batch_size, batches@),
                self.generation() <= world@.archetypes.len(),
                items_view(items@) == batch_items(
                    shape,
                    world@,
                    batches@,
                    b as int,
                    system_counter,
                    global_system_counter,
                ),
            decreases batches@.len() - b,
        {
            let mut more = self.iter_batch(world, &batches[b], system_counter,
                global_system_counter);
            let ghost before = items@;
            let ghost added = more@;
            items.append(&mut more);
            proof {
                assert(items_view(before + added) =~= items_view(before) + items_view(added));
            }
            b += 1;
        }
        items
    }

    /// Calls `f` on each of the items given, which are the items of the
    /// query, and carries out the writes that the answers ask for.
    fn apply_answers<F: Fn(&QueryItem) -> Vec<Option<u64>>>(
        &self,
        world: &mut World,
        items: &Vec<QueryItem>,
        f: F,
        system_counter: u32,
        global_system_counter: u32,
    )
        requires
            old(world).wf(),
            self.valid_for(old(world)@),
            forall|item: &QueryItem| #[trigger] f.requires((item,)),
            items_view(items@) == self.shape().items(
                old(world)@,
                self.generation() as int,
                system_counter,
                global_system_counter,
            ),
        ensures
            final(world).wf(),
            self.valid_for(final(world)@),
            same_placement(old(world)@, final(world)@),
            exists|all: Seq<QueryItem>, outs: Seq<Vec<Option<u64>>>| #[trigger]
                answered_by(
                    f,
                    old(world)@,
                    final(world)@,
                    self.access(),
                    self.shape(),
                    self.generation() as int,
                    system_counter,
                    global_system_counter,
                    all,
                    outs,
                ),
    {
        let ghost shape = self.shape();
        let ghost access = self.access();
        let ghost views = items_view(items@);
        let ghost mut outs: Seq<Vec<Option<u64>>> = Seq::empty();
        let mut i: usize = 0;
        while i < items.len()
            invariant
                i <= items@.len(),
                world.wf(),
                self.valid_for(world@),
                shape == self.shape(),
                access == self.access(),
                views == items_view(items@),
                forall|item: &QueryItem| #[trigger] f.requires((item,)),
                outs.len() == i,
                forall|x: int| 0 <= x < i ==> f.ensures((&items@[x],), #[trigger] outs[x]),
                world@ == after_items(
                    old(world)@,
                    access,
                    shape,
                    views,
                    outs,
                    i as int,
                    global_system_counter,
                ),
            decreases items@.len() - i,
        {
            let item = &items[i];
            let out = f(item);
            let ghost start = world@;
            let mut j: usize = 0;
            while j < self.fetches.len()
                invariant
                    j <= self.fetches@.len(),
                    world.wf(),
                    self.valid_for(world@),
                    shape == self.shape(),
                    access == self.access(),
                    item@ == views[i as int],
                    world@ == after_item(
                        start,
                        access,
                        shape,
                        item@,
                        out@,
                        j as int,
                        global_system_counter,
                    ),
                decreases self.fetches@.len() - j,
            {
                if j < out.len() {
                    let wanted: Option<ComponentId> = match self.fetches[j] {
                        Fetch::Write(c) => Some(c),
                        Fetch::OptionalWrite(c) => Some(c),
                        _ => None,
                    };
                    match (wanted, out[j]) {
                        (Some(c), Some(value)) => {
                            assert(term_write(shape, item@, out@, j as int) == Some(
                                ComponentWrite {
                                    query: 0,
                                    entity: item.entity,
                                    component_id: c,
                                    value,
                                },
                            ));
                            let _ = self.write(
                                world,
                                item.entity,
                                c,
                                value,
                                system_counter,
                                global_system_counter,
                            );
                        },
                        _ => {
                            assert(term_write(shape, item@, out@, j as int).is_none());
                        },
                    }
                } else {
                    assert(term_write(shape, item@, out@, j as int).is_none());
                }
                j += 1;
            }
            proof {
                let grown = outs.push(out);
                assert forall|x: int| 0 <= x < i + 1 implies f.ensures(
                    (&items@[x],),
                    #[trigger] grown[x],
                ) by {
                    if x < i {
                        assert(grown[x] == outs[x]);
                    }
                }
                lemma_after_items_prefix(
                    old(world)@,
                    access,
                    shape,
                    views,
                    outs,
                    grown,
                    i as int,
                    global_system_counter,
                );
                outs = grown;
            }
            i += 1;
        }
        proof {
            assert(items_view(items@) == shape.items(
                old(world)@,
                self.generation() as int,
                system_counter,
                global_system_counter,
            ));
            crate::query::write::lemma_after_items_same_placement(
                old(world)@,
                access,
                shape,
                views,
                outs,
                items@.len() as int,
                global_system_counter,
            );
            assert(answered_by(
                f,
                old(world)@,
                world@,
                self.access(),
                self.shape(),
                self.generation() as int,
                system_counter,
                global_system_counter,
                items@,
                outs,
            ));
        }
    }

    /// Cuts the rows of the archetypes that the query matches into
    /// batches of at most `batch_size` rows. The batches cover every row
    /// once, in the order in which the query visits the rows, so that
    /// their items, batch by batch, are the items of the query.
    pub fn batches(&self, world: &World, batch_size: usize) -> (batches: Vec<Batch>)
        requires
            world.wf(),
            self.valid_for(world@),
            batch_size > 0,
        ensures
            batches_ordered(self.shape(), world@, self.generation(), batch_size, batches@),
            forall|system_counter: u32, global_system_counter: u32|
                #[trigger] batch_items(
                    self.shape(),
                    world@,
                    batches@,
                    batches@.len() as int,
                    system_counter,
                    global_system_counter,
                ) == self.shape().items(
                    world@,
                    self.generation() as int,
                    system_counter,
                    global_system_counter,
                ),
    {
        let ghost shape = self.shape();
        let ghost v = world@;
        let mut batches: Vec<Batch> = Vec::new();
        let mut m: usize = 0;
        proof {
            let first = if self.matched_archetypes@.len() > 0 {
                self.matched_archetypes@[0] as int
            } else {
                self.archetype_generation as int
            };
            if self.matched_archetypes@.len() > 0 {
                assert(self.matched_archetypes@.contains(self.matched_archetypes@[0]));
            }
            assert forall|a: int| 0 <= a < first implies !shape.matches(
                 #[trigger] v.archetypes[a].components) by {
                if shape.matches(v.archetypes[a].components) {
                    assert(self.matched_archetypes@.contains(a as usize));
                    let i = choose|i: int|
                        0 <= i < self.matched_archetypes@.len()
                            && self.matched_archetypes@[i] == a as usize;
                    if i > 0 {
                        assert(self.matched_archetypes@[0] < self.matched_archetypes@[i]);
                    }
                }
            }
            assert forall|sc: u32, g: u32| #[trigger]
                batch_items(shape, v, batches@, 0, sc, g) == shape.items(v, first, sc, g) by {
                shape.lemma_items_skip(v, 0, first, sc, g);
            }
        }
        while m < self.matched_archetypes.len()
            invariant
                m <= self.matched_archetypes@.len(),
                world.wf(),
                v == world@,
                shape == self.shape(),
                self.valid_for(v),
                batch_size > 0,
                batches_ordered(shape, v, self.generation(), batch_size, batches@),
                forall|i: int|
                    0 <= i < batches@.len() && m < self.matched_archetypes@.len() ==> (
                    #[trigger] batches@[i]).archetype_id < self.matched_archetypes@[m as int],
                forall|sc: u32, g: u32|
                    #[trigger] batch_items(shape, v, batches@, batches@.len() as int, sc, g)
                        == shape.items(
                        v,
                        if m < self.matched_archetypes@.len() {
                            self.matched_archetypes@[m as int] as int
                        } else {
                            self.archetype_generation as int
                        },
                        sc,
                        g,
                    ),
            decreases self.matched_archetypes@.len() - m,
        {
            let a: usize = self.matched_archetypes[m];
            proof {
                assert(self.matched_archetypes@.contains(a));
            }
            let rows: usize = world.archetype(a).len();
            let mut start: usize = 0;
            proof {
                assert forall|sc: u32, g: u32|
                    #[trigger] batch_items(shape, v, batches@, batches@.len() as int, sc, g)
                        == shape.items(v, a as int, sc, g) + shape.row_items(v, a as int, 0, sc,
                            g) by {
                    assert(shape.items(v, a as int, sc, g) + Seq::<QueryItemView>::empty()
                        =~= shape.items(v, a as int, sc, g));
                }
            }
            while start < rows
                invariant
                    start <= rows,
                    rows == v.archetypes[a as int].entities.len(),
                    a < self.generation(),
                    a == self.matched_archetypes@[m as int],
                    m < self.matched_archetypes@.len(),
                    shape.matches(v.archetypes[a as int].components),
                    batch_size > 0,
                    batches_ordered(shape, v, self.generation(), batch_size, batches@),
                    forall|i: int|
                        0 <= i < batches@.len() ==> (#[trigger] batches@[i]).archetype_id < a || (
                        batches@[i].archetype_id == a && batches@[i].end <= start),
                    forall|sc: u32, g: u32|
                        #[trigger] batch_items(shape, v, batches@, batches@.len() as int, sc, g)
                            == shape.items(v, a as int, sc, g) + shape.row_items(
                            v,
                            a as int,
                            start as int,
                            sc,
                            g,
                        ),
                decreases rows - start,
            {
                let end: usize = if rows - start > batch_size {
                    start + batch_size
                } else {
                    rows
                };
                let ghost before = batches@;
                batches.push(Batch { archetype_id: a, start, end });
                proof {
                    assert forall|sc: u32, g: u32|
                        #[trigger] batch_items(shape, v, batches@, batches@.len() as int, sc, g)
                            == shape.items(v, a as int, sc, g) + shape.row_items(
                            v,
                            a as int,
                            end as int,
                            sc,
                            g,
                        ) by {
                        lemma_batch_items_prefix(shape, v, before, batches@, before.len() as int,
                            sc, g);
                        shape.lemma_row_items_split(v, a as int, start as int, end as int, sc, g);
                        let head = shape.items(v, a as int, sc, g);
                        let done = shape.row_items(v, a as int, start as int, sc, g);
                        let more = shape.range_items(v, a as int, start as int, end as int, sc, g);
                        assert((head + done) + more =~= head + (done + more));
                    }
                }
                start = end;
            }
            proof {
                let next = if m + 1 < self.matched_archetypes@.len() {
                    self.matched_archetypes@[m + 1] as int
                } else {
                    self.archetype_generation as int
                };
                if m + 1 < self.matched_archetypes@.len() {
                    assert(self.matched_archetypes@.contains(self.matched_archetypes@[m + 1]));
                    assert(self.matched_archetypes@[m as int] < self.matched_archetypes@[m + 1]);
                }
                assert forall|x: int| a + 1 <= x < next implies !shape.matches(
                     #[trigger] v.archetypes[x].components) by {
                    if shape.matches(v.archetypes[x].components) {
                        assert(self.matched_archetypes@.contains(x as usize));
                        let i = choose|i: int|
                            0 <= i < self.matched_archetypes@.len() && self.matched_archetypes@[i]
                                == x as usize;
                        if i <= m {
                            if i < m {
                                assert(self.matched_archetypes@[i]
                                    < self.matched_archetypes@[m as int]);
                            }
                        } else if i > m + 1 {
                            assert(self.matched_archetypes@[m + 1] < self.matched_archetypes@[i]);
                        }
                    }
                }
                assert forall|sc: u32, g: u32|
                    #[trigger] batch_items(shape, v, batches@, batches@.len() as int, sc, g)
                        == shape.items(v, next, sc, g) by {
                    shape.lemma_items_skip(v, a + 1, next, sc, g);
                }
            }
            m += 1;
        }
        batches
    }

    /// The items of the rows of a batch, in row order.
    pub fn iter_batch(
        &self,
        world: &World,
        batch: &Batch,
        system_counter: u32,
        global_system_counter: u32,
    ) -> (items: Vec<QueryItem>)
        requires
            world.wf(),
            self.valid_for(world@),
            batch.archetype_id < world@.archetypes.len(),
            self.shape().matches(world@.archetypes[batch.archetype_id as int].components),
            batch.start <= batch.end <= world@.archetypes[batch.archetype_id as int].entities.len(),
        ensures
            items_view(items@) == self.shape().range_items(
                world@,
                batch.archetype_id as int,
                batch.start as int,
                batch.end as int,
                system_counter,
                global_system_counter,
            ),
    {
        let a: usize = batch.archetype_id;
        let archetype = world.archetype(a);
        let (fetch_plan, filter_plan) = self.plan(archetype);
        let ghost shape = self.shape();
        let ghost v = world@;
        let mut items: Vec<QueryItem> = Vec::new();
        let mut row: usize = batch.start;
        proof {
            assert(items_view(items@) =~= shape.range_items(
                v,
                a as int,
                batch.start as int,
                batch.start as int,
                system_counter,
                global_system_counter,
            ));
        }
        while row < batch.end
            invariant
                batch.start <= row <= batch.end,
                batch.end <= v.archetypes[a as int].entities.len(),
                world.wf(),
                v == world@,
                shape == self.shape(),
                a < v.archetypes.len(),
                shape.matches(v.archetypes[a as int].components),
                archetype.component_ids() == v.archetypes[a as int].components,
                fetch_plan@.len() == self.fetches@.len(),
                filter_plan@.len() == self.filters@.len(),
                forall|i: int|
                    0 <= i < self.fetches@.len() ==> match #[trigger] fetch_plan@[i] {
                        Some(k) => k < archetype.components@.len() && self.fetches@[i].component()
                            == Some(archetype.components@[k as int]),
                        None => match self.fetches@[i].component() {
                            Some(c) => !archetype.components@.contains(c),
                            None => true,
                        },
                    },
                forall|j: int|
                    0 <= j < self.filters@.len() ==> match #[trigger] filter_plan@[j] {
                        Some(k) => k < archetype.components@.len() && self.filters@[j].component()
                            == archetype.components@[k as int],
                        None => !archetype.components@.contains(self.filters@[j].component()),
                    },
                items_view(items@) == shape.range_items(
                    v,
                    a as int,
                    batch.start as int,
                    row as int,
                    system_counter,
                    global_system_counter,
                ),
            decreases batch.end - row,
        {
            let ghost before = items_view(items@);
            if self.row_passes(world, a, row, &filter_plan, system_counter, global_system_counter) {
                let item = self.row_item(world, a, row, &fetch_plan);
                items.push(item);
                proof {
                    assert(items_view(items@) =~= before.push(item@));
                }
            }
            row += 1;
        }
        items
    }
}

/// A component that a term writes is a component that a term accesses.
pub proof fn lemma_write_is_access(uses: Seq<Option<TermUse>>, n: int, c: ComponentId)
    ensures
        used(uses, n, c, UseKind::Write) ==> used(uses, n, c, UseKind::Access),
{
    if used(uses, n, c, UseKind::Write) {
        let j = choose|j: int| 0 <= j < n && used_at(uses, j, c, UseKind::Write);
        assert(used_at(uses, j, c, UseKind::Access));
    }
}

/// A shape without fault for a registry is without fault for a larger one.
pub proof fn lemma_error_monotone(uses: Seq<Option<TermUse>>, small: nat, large: nat, i: int)
    requires
        small <= large,
        0 <= i <= uses.len(),
        crate::query::shape::first_error(uses, small, i).is_none(),
    ensures
        crate::query::shape::first_error(uses, large, i).is_none(),
    decreases i,
{
    if i > 0 {
        lemma_error_monotone(uses, small, large, i - 1);
    }
}

/// What the answers to the first `m` items lead to does not depend on
/// later answers.
pub proof fn lemma_after_items_prefix(
    world: WorldView,
    access: AccessView,
    shape: QueryShape,
    items: Seq<QueryItemView>,
    outs: Seq<Vec<Option<u64>>>,
    more: Seq<Vec<Option<u64>>>,
    m: int,
    tick: u32,
)
    requires
        0 <= m <= outs.len() <= more.len(),
        forall|x: int| 0 <= x < m ==> more[x] == outs[x],
    ensures
        after_items(world, access, shape, items, more, m, tick) == after_items(
            world,
            access,
            shape,
            items,
            outs,
            m,
            tick,
        ),
    decreases m,
{
    if m > 0 {
        lemma_after_items_prefix(world, access, shape, items, outs, more, m - 1, tick);
    }
}

/// The items of the first `n` batches do not depend on later batches.
pub proof fn lemma_batch_items_prefix(
    shape: QueryShape,
    world: WorldView,
    batches: Seq<Batch>,
    more: Seq<Batch>,
    n: int,
    system_counter: u32,
    global_system_counter: u32,
)
    requires
        0 <= n <= batches.len() <= more.len(),
        forall|i: int| 0 <= i < n ==> more[i] == batches[i],
    ensures
        batch_items(shape, world, more, n, system_counter, global_system_counter) == batch_items(
            shape,
            world,
            batches,
            n,
            system_counter,
            global_system_counter,
        ),
    decreases n,
{
    if n > 0 {
        lemma_batch_items_prefix(
            shape,
            world,
            batches,
            more,
            n - 1,
            system_counter,
            global_system_counter,
        );
    }
}

} // verus!
