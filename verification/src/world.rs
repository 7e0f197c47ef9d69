//! The store: entities, their components, and the archetypes that hold them.

use vstd::prelude::*;
use crate::archetype::{
    copy_ids,
    insert_sorted,
    lemma_position,
    lemma_position_of_member,
    position,
    remove_sorted,
    same_ids,
    strictly_sorted,
    swap_removed,
    Archetype,
    ArchetypeComponentId,
    ArchetypeId,
};
use crate::bundle::Bundle;
use crate::component::{
    advance,
    id_of,
    ComponentCounters,
    ComponentDescriptor,
    ComponentId,
    Components,
    ComponentsError,
    StorageType,
    Stored,
};
use crate::entity::{Entities, Entity, EntityLocation};
use crate::storage::SparseArray;

verus! {

/// What a caller may know of one archetype.
pub struct ArchetypeView {
    /// The component types of its entities, in increasing order.
    pub components: Seq<ComponentId>,
    /// For each of them, the identifier that access tracking uses.
    pub access_ids: Seq<ArchetypeComponentId>,
    /// Its entities, row by row.
    pub entities: Seq<Entity>,
}

/// One of the archetypes has exactly the component types `components`.
pub open spec fn some_archetype_has(archetypes: Seq<ArchetypeView>,
    components: Seq<ComponentId>) -> bool {
    exists|a: int| 0 <= a < archetypes.len() && #[trigger] archetypes[a].components == components
}

/// The archetype, among those given, whose component types are exactly
/// `components`.
pub open spec fn archetype_that_has(archetypes: Seq<ArchetypeView>,
    components: Seq<ComponentId>) -> int {
    choose|a: int| 0 <= a < archetypes.len() && #[trigger] archetypes[a].components == components
}

/// The mathematical content of a [`World`].
pub struct WorldView {
    /// The registered component types, indexed by identifier.
    pub registry: Seq<ComponentDescriptor>,
    /// The archetypes, in order of creation.
    pub archetypes: Seq<ArchetypeView>,
    /// The live entities, each with its components.
    pub entities: Map<Entity, Map<ComponentId, Stored>>,
    /// The archetype and row of each live entity.
    pub locations: Map<Entity, EntityLocation>,
    /// How many archetype component identifiers have been issued.
    pub access_ids_issued: nat,
    /// The generation of each entity index that has been issued.
    pub generations: Seq<u32>,
    /// How many of the entity indices issued are free to be issued again.
    pub free_indices: nat,
    pub global_system_counter: u32,
    pub exclusive_system_counter: u32,
}

impl WorldView {
    /// The handle names a live entity.
    pub open spec fn contains(self, entity: Entity) -> bool {
        self.entities.contains_key(entity)
    }

    /// The live entity holds a component of the type.
    pub open spec fn has(self, entity: Entity, component_id: ComponentId) -> bool {
        self.entities.contains_key(entity) && self.entities[entity].contains_key(component_id)
    }

    /// Some archetype has exactly the component types `components`.
    pub open spec fn has_archetype(self, components: Seq<ComponentId>) -> bool {
        some_archetype_has(self.archetypes, components)
    }

    /// The archetype whose component types are exactly `components`.
    pub open spec fn archetype_with(self, components: Seq<ComponentId>) -> int {
        archetype_that_has(self.archetypes, components)
    }

    /// The components of a live entity after it was given those of `bundle`.
    pub open spec fn with_bundle(self, e: Entity, bundle: Map<ComponentId, u64>) -> Map<
        ComponentId,
        Stored,
    > {
        Map::new(
            |c: ComponentId| self.entities[e].contains_key(c) || bundle.contains_key(c),
            |c: ComponentId|
                if bundle.contains_key(c) {
                    Stored::inserted(bundle[c], self.global_system_counter)
                } else {
                    self.entities[e][c]
                },
        )
    }

    /// Rows and locations after the live entity `e` has left its row: the
    /// last row of its archetype takes the place of the row.
    pub open spec fn detached(self, e: Entity) -> WorldView {
        let loc = self.locations[e];
        let source = self.archetypes[loc.archetype_id as int];
        WorldView {
            archetypes: self.archetypes.update(
                loc.archetype_id as int,
                ArchetypeView { entities: swap_removed(source.entities, loc.index as int),
                    ..source },
            ),
            locations: if loc.index + 1 < source.entities.len() {
                self.locations.insert(source.entities.last(), loc)
            } else {
                self.locations
            },
            ..self
        }
    }

    /// Rows and locations after `e` was put into a new last row of archetype `b`.
    pub open spec fn attached(self, e: Entity, b: int) -> WorldView {
        let target = self.archetypes[b];
        WorldView {
            archetypes: self.archetypes.update(
                b,
                ArchetypeView { entities: target.entities.push(e), ..target },
            ),
            locations: self.locations.insert(
                e,
                EntityLocation { archetype_id: b as usize, index: target.entities.len() as usize },
            ),
            ..self
        }
    }

    /// The view with one more archetype, which has no entities yet and
    /// gets the next archetype component identifiers.
    pub open spec fn with_archetype(self, components: Seq<ComponentId>) -> WorldView {
        WorldView {
            archetypes: self.archetypes.push(
                ArchetypeView {
                    components,
                    access_ids: Seq::new(
                        components.len(),
                        |k: int| (self.access_ids_issued + k) as usize,
                    ),
                    entities: Seq::empty(),
                },
            ),
            access_ids_issued: self.access_ids_issued + components.len(),
            ..self
        }
    }

    /// The view after the live entity `e` was given the components
    /// `components`, whose types are `target`: the entity stays in its row
    /// if its archetype has these types, else it moves to the last row of
    /// the archetype that has them, which is created if there was none.
    pub open spec fn moved(
        self,
        e: Entity,
        target: Seq<ComponentId>,
        components: Map<ComponentId, Stored>,
    ) -> WorldView {
        let extended = if self.has_archetype(target) {
            self
        } else {
            self.with_archetype(target)
        };
        let b = extended.archetype_with(target);
        let placed = if b == self.locations[e].archetype_id {
            extended
        } else {
            extended.detached(e).attached(e, b)
        };
        WorldView { entities: self.entities.insert(e, components), ..placed }
    }

    /// The component types of a live entity after it was given `bundle`.
    pub open spec fn bundle_target(self, e: Entity, bundle: Map<ComponentId, u64>) -> Seq<
        ComponentId,
    > {
        sorted_members(self.entities[e].dom().union(bundle.dom()))
    }

    /// Every component type of the bundle is registered.
    pub open spec fn registered(self, bundle: Map<ComponentId, u64>) -> bool {
        forall|c: ComponentId| bundle.contains_key(c) ==> c < self.registry.len()
    }

    /// Whether an insertion of `bundle` into `e` succeeds, and why not.
    pub open spec fn insert_result(self, e: Entity, bundle: Map<ComponentId, u64>) -> Result<
        (),
        WorldError,
    > {
        if !self.contains(e) {
            Err(WorldError::NoSuchEntity)
        } else if !self.registered(bundle) {
            Err(WorldError::UnknownComponent)
        } else if self.cannot_create(self.bundle_target(e, bundle)) {
            Err(WorldError::CapacityExhausted)
        } else {
            Ok(())
        }
    }

    /// Whether the removal of a component type from `e` succeeds, with the
    /// value removed, and why not.
    pub open spec fn remove_result(self, e: Entity, c: ComponentId) -> Result<
        Option<u64>,
        WorldError,
    > {
        if !self.contains(e) {
            Err(WorldError::NoSuchEntity)
        } else if !self.entities[e].contains_key(c) {
            Ok(None)
        } else if self.cannot_create(sorted_members(self.entities[e].dom().remove(c))) {
            Err(WorldError::CapacityExhausted)
        } else {
            Ok(Some(self.entities[e][c].value))
        }
    }

    /// The view with one cell of a live entity replaced.
    pub open spec fn with_cell(self, e: Entity, c: ComponentId, cell: Stored) -> WorldView {
        WorldView { entities: self.entities.insert(e, self.entities[e].insert(c, cell)), ..self }
    }

    /// The view is that of a later state of a store that showed
    /// `earlier`: what was registered is registered, and every archetype
    /// of `earlier` is there with its component types and identifiers.
    pub open spec fn extends(self, earlier: WorldView) -> bool {
        &&& earlier.registry.len() <= self.registry.len()
        &&& forall|c: int|
            0 <= c < earlier.registry.len() ==> #[trigger] self.registry[c] == earlier.registry[c]
        &&& earlier.archetypes.len() <= self.archetypes.len()
        &&& forall|a: int|
            0 <= a < earlier.archetypes.len() ==> {
                &&& (#[trigger] self.archetypes[a]).components == earlier.archetypes[a].components
                &&& self.archetypes[a].access_ids == earlier.archetypes[a].access_ids
            }
    }

    /// The identifier that access tracking uses for a component that a
    /// live entity holds.
    pub open spec fn access_id(self, e: Entity, c: ComponentId) -> ArchetypeComponentId {
        let archetype = self.archetypes[self.locations[e].archetype_id as int];
        archetype.access_ids[position(archetype.components, c)]
    }

    /// Moving an entity keeps what is registered and the archetypes that
    /// there are.
    pub proof fn lemma_moved_extends(
        self,
        e: Entity,
        target: Seq<ComponentId>,
        components: Map<ComponentId, Stored>,
    )
        requires
            self.wf(),
            self.contains(e),
        ensures
            self.moved(e, target, components).extends(self),
    {
        let extended = if self.has_archetype(target) {
            self
        } else {
            self.with_archetype(target)
        };
        assert(extended.has_archetype(target)) by {
            if !self.has_archetype(target) {
                assert(extended.archetypes[self.archetypes.len() as int].components == target);
            }
        }
        let b = extended.archetype_with(target);
        assert(0 <= b < extended.archetypes.len());
        assert(self.locations.contains_key(e));
    }

    /// The view with the counters of every component rebased against
    /// the global counter.
    pub open spec fn rebased(self) -> WorldView {
        WorldView {
            entities: Map::new(
                |e: Entity| self.entities.contains_key(e),
                |e: Entity|
                    Map::new(
                        |c: ComponentId| self.entities[e].contains_key(c),
                        |c: ComponentId| self.entities[e][c].rebased(self.global_system_counter),
                    ),
            ),
            ..self
        }
    }

    /// No entity index is free and none is left to issue.
    pub open spec fn exhausted(self) -> bool {
        self.free_indices == 0 && self.generations.len() >= u32::MAX
    }

    /// The view after the live entity `e` was removed: its row is taken
    /// by the last row of its archetype, and its index is free to be
    /// issued again with the next generation, unless it has run out of
    /// generations.
    pub open spec fn despawned(self, e: Entity) -> WorldView {
        WorldView {
            entities: self.entities.remove(e),
            locations: self.detached(e).locations.remove(e),
            generations: crate::entity::freed_generations(self.generations, e),
            free_indices: self.free_indices + (if e.generation < u32::MAX {
                1nat
            } else {
                0nat
            }),
            ..self.detached(e)
        }
    }

    /// A new archetype for `components` cannot get its identifiers.
    pub open spec fn cannot_create(self, components: Seq<ComponentId>) -> bool {
        !self.has_archetype(components) && self.access_ids_issued + components.len() > usize::MAX
    }

    /// The structure that every store keeps: archetypes are told apart by
    /// their component types, every live entity stands in one row of one
    /// archetype, and that archetype has the entity's component types.
    pub open spec fn wf(self) -> bool {
        &&& self.archetypes.len() >= 1
        &&& self.archetypes[0].components.len() == 0
        &&& self.entities.dom() == self.locations.dom()
        &&& forall|a: int|
            0 <= a < self.archetypes.len() ==> {
                &&& strictly_sorted(#[trigger] self.archetypes[a].components)
                &&& self.archetypes[a].access_ids.len() == self.archetypes[a].components.len()
                &&& forall|k: int|
                    0 <= k < self.archetypes[a].components.len() ==> {
                        &&& #[trigger] self.archetypes[a].components[k] < self.registry.len()
                        &&& self.archetypes[a].access_ids[k] < self.access_ids_issued
                    }
            }
        &&& forall|a: int, b: int|
            0 <= a < b < self.archetypes.len() ==> #[trigger] self.archetypes[a].components
                != #[trigger] self.archetypes[b].components
        &&& forall|a: int, k: int, b: int, j: int|
            0 <= a < self.archetypes.len() && 0 <= k < self.archetypes[a].access_ids.len() && 0 <= b
                < self.archetypes.len() && 0 <= j < self.archetypes[b].access_ids.len()
                && #[trigger] self.archetypes[a].access_ids[k]
                == #[trigger] self.archetypes[b].access_ids[j] ==> a == b && k == j
        &&& forall|e: Entity| #[trigger]
            self.locations.contains_key(e) ==> e.id < self.generations.len() && e.generation
                == self.generations[e.id as int]
        &&& forall|e: Entity| #[trigger]
            self.locations.contains_key(e) ==> {
                let loc = self.locations[e];
                &&& loc.archetype_id < self.archetypes.len()
                &&& loc.index < self.archetypes[loc.archetype_id as int].entities.len()
                &&& self.archetypes[loc.archetype_id as int].entities[loc.index as int] == e
                &&& self.entities[e].dom() =~= self.archetypes[loc.archetype_id as int].components.to_set()
            }
        &&& forall|a: int, r: int|
            0 <= a < self.archetypes.len() && 0 <= r < self.archetypes[a].entities.len() ==> {
                let e = #[trigger] self.archetypes[a].entities[r];
                self.locations.contains_key(e) && self.locations[e].archetype_id == a
                    && self.locations[e].index == r
            }
    }
}

/// The members of a set of identifiers, in increasing order.
pub open spec fn sorted_members(s: Set<ComponentId>) -> Seq<ComponentId> {
    choose|q: Seq<ComponentId>|
        strictly_sorted(q) && (forall|c: ComponentId| q.contains(c) <==> s.contains(c))
}

/// A strictly sorted sequence is the sorted sequence of its members.
pub proof fn lemma_sorted_members(q: Seq<ComponentId>, s: Set<ComponentId>)
    requires
        strictly_sorted(q),
        forall|c: ComponentId| q.contains(c) <==> s.contains(c),
    ensures
        sorted_members(s) == q,
{
    let chosen = sorted_members(s);
    assert(strictly_sorted(chosen) && (forall|c: ComponentId| chosen.contains(c)
        <==> s.contains(c)));
    crate::archetype::lemma_sorted_same_members(chosen, q);
}

/// `x` is among the first `i` identifiers of the list.
pub open spec fn in_prefix(ids: Seq<ComponentId>, i: int, x: ComponentId) -> bool {
    exists|j: int| 0 <= j < i && ids[j] == x
}

/// Being among the first `i + 1` is being among the first `i` or being the
/// one at place `i`.
pub proof fn lemma_in_prefix_step(ids: Seq<ComponentId>, i: int, x: ComponentId)
    requires
        0 <= i < ids.len(),
    ensures
        in_prefix(ids, i + 1, x) <==> in_prefix(ids, i, x) || ids[i] == x,
{
    if in_prefix(ids, i + 1, x) {
        let j = choose|j: int| 0 <= j < i + 1 && ids[j] == x;
        if j < i {
            assert(0 <= j < i && ids[j] == x);
        }
    }
    if in_prefix(ids, i, x) {
        let j = choose|j: int| 0 <= j < i && ids[j] == x;
        assert(0 <= j < i + 1 && ids[j] == x);
    }
    if ids[i] == x {
        assert(0 <= i < i + 1 && ids[i] == x);
    }
}

/// Being among all identifiers of a list is being in the list.
pub proof fn lemma_in_prefix_all(ids: Seq<ComponentId>, x: ComponentId)
    ensures
        in_prefix(ids, ids.len() as int, x) <==> ids.contains(x),
{
    if ids.contains(x) {
        let j = choose|j: int| 0 <= j < ids.len() && ids[j] == x;
        assert(0 <= j < ids.len() && ids[j] == x);
    }
}

/// The components that a row stands for: a cell of the row where the row
/// has one, else the cell kept for the entity index outside the archetype.
pub open(crate) spec fn row_map(
    components: Seq<ComponentId>,
    cells: Seq<Option<Stored>>,
    sparse_sets: Seq<SparseArray>,
    id: u32,
) -> Map<ComponentId, Stored> {
    Map::new(
        |c: ComponentId| components.contains(c),
        |c: ComponentId|
            match cells[position(components, c)] {
                Some(cell) => cell,
                None => sparse_sets[c as int].cell(id).unwrap(),
            },
    )
}

/// The components of an entity after it was given the components of
/// `bundle` at `tick` and keeps, of the others, those in `kept`.
pub open spec fn merged(
    current: Map<ComponentId, Stored>,
    kept: Seq<ComponentId>,
    bundle: Map<ComponentId, u64>,
    tick: u32,
) -> Map<ComponentId, Stored> {
    Map::new(
        |c: ComponentId| kept.contains(c),
        |c: ComponentId|
            if bundle.contains_key(c) {
                Stored::inserted(bundle[c], tick)
            } else {
                current[c]
            },
    )
}

/// The store of entities and components.
pub struct World {
    pub(crate) entities: Entities,
    pub(crate) components: Components,
    pub(crate) archetypes: Vec<Archetype>,
    pub(crate) sparse_sets: Vec<SparseArray>,
    pub(crate) archetype_component_count: usize,
    pub(crate) global_system_counter: u32,
    pub(crate) exclusive_system_counter: u32,
}

/// Why the store refused an operation.
#[derive(Copy, Clone, Debug, PartialEq, Eq, Structural)]
pub enum WorldError {
    /// The handle does not name a live entity.
    NoSuchEntity,
    /// A component identifier is not registered.
    UnknownComponent,
    /// The store has run out of entity indices or of archetype component
    /// identifiers.
    CapacityExhausted,
}

/// Mutable access to one component of one entity. Taking the value for
/// writing records the write in the component's counters.
pub struct Mut<'a> {
    pub value: &'a mut u64,
    pub component_counters: &'a mut ComponentCounters,
    pub system_counter: u32,
    pub global_system_counter: u32,
}

impl<'a> Mut<'a> {
    /// The cell as it stands now.
    pub open spec fn view(&self) -> Stored {
        Stored { value: *self.value, counters: *self.component_counters }
    }

    /// Reads the value; nothing is recorded.
    pub fn get(&self) -> (value: u64)
        ensures
            value == self@.value,
    {
        *self.value
    }

    /// Writes the value and records the write.
    pub fn set(&mut self, value: u64)
        ensures
            final(self)@ == old(self)@.written(value, old(self).global_system_counter),
            *final(final(self).value) == *final(old(self).value),
            *final(final(self).component_counters) == *final(old(self).component_counters),
            final(self).system_counter == old(self).system_counter,
            final(self).global_system_counter == old(self).global_system_counter,
    {
        self.component_counters.set_changed(self.global_system_counter);
        *self.value = value;
    }

    /// Records a write without changing the value.
    pub fn set_changed(&mut self)
        ensures
            final(self)@ == old(self)@.written(old(self)@.value, old(self).global_system_counter),
            *final(final(self).value) == *final(old(self).value),
            *final(final(self).component_counters) == *final(old(self).component_counters),
            final(self).system_counter == old(self).system_counter,
            final(self).global_system_counter == old(self).global_system_counter,
    {
        self.component_counters.set_changed(self.global_system_counter);
    }

    /// True iff the component was added after the system last ran.
    pub fn is_added(&self) -> (r: bool)
        ensures
            r == self@.counters.added_since(self.system_counter, self.global_system_counter),
    {
        self.component_counters.is_added(self.system_counter, self.global_system_counter)
    }

    /// True iff the component was written, but not added, after the
    /// system last ran.
    pub fn is_mutated(&self) -> (r: bool)
        ensures
            r == (self@.counters.changed_since(self.system_counter, self.global_system_counter)
                && !self@.counters.added_since(self.system_counter, self.global_system_counter)),
    {
        self.component_counters.is_mutated(self.system_counter, self.global_system_counter)
    }

    /// True iff the component was added or written after the system last ran.
    pub fn is_changed(&self) -> (r: bool)
        ensures
            r == self@.counters.changed_since(self.system_counter, self.global_system_counter),
    {
        self.component_counters.is_changed(self.system_counter, self.global_system_counter)
    }
}

impl World {
    /// The components of the live entity `e`.
    pub open(crate) spec fn components_of(&self, e: Entity) -> Map<ComponentId, Stored> {
        let loc = self.entities@[e];
        let arch = self.archetypes@[loc.archetype_id as int];
        row_map(arch.components@, arch.row_cells(loc.index as int), self.sparse_sets@, e.id)
    }

    /// What the store shows of archetype `a`.
    pub open(crate) spec fn archetype_view(&self, a: int) -> ArchetypeView {
        ArchetypeView {
            components: self.archetypes@[a].components@,
            access_ids: self.archetypes@[a].archetype_component_ids@,
            entities: self.archetypes@[a].entities@,
        }
    }

    /// What the store shows.
    pub closed spec fn view(&self) -> WorldView {
        WorldView {
            registry: self.components@,
            archetypes: Seq::new(self.archetypes@.len(), |a: int| self.archetype_view(a)),
            entities: Map::new(
                |e: Entity| self.entities@.contains_key(e),
                |e: Entity| self.components_of(e),
            ),
            locations: self.entities@,
            access_ids_issued: self.archetype_component_count as nat,
            generations: self.entities.generations(),
            free_indices: self.entities.free_indices(),
            global_system_counter: self.global_system_counter,
            exclusive_system_counter: self.exclusive_system_counter,
        }
    }

    /// Archetype `a` is well formed, stands at its place, and its component
    /// types are registered with the storage that it assumes.
    pub open(crate) spec fn archetype_ok(&self, a: int) -> bool {
        let arch = self.archetypes@[a];
        &&& arch.wf()
        &&& arch.id == a
        &&& forall|k: int|
            0 <= k < arch.components@.len() ==> {
                &&& #[trigger] arch.components@[k] < self.components@.len()
                &&& arch.storages@[k] == self.components@[arch.components@[k] as int].storage_type
                &&& arch.archetype_component_ids@[k] < self.archetype_component_count
            }
    }

    /// The parts of the store are well formed and fit together, apart from
    /// the placement of entities.
    pub open(crate) spec fn structure_wf(&self) -> bool {
        &&& self.entities.wf()
        &&& self.components.wf()
        &&& self.sparse_sets@.len() == self.components@.len()
        &&& self.archetypes@.len() >= 1
        &&& self.archetypes@[0].components@.len() == 0
        &&& forall|a: int| 0 <= a < self.archetypes@.len() ==> #[trigger] self.archetype_ok(a)
        &&& forall|a: int, b: int|
            0 <= a < b < self.archetypes@.len()
                ==> (#[trigger] self.archetypes@[a]).components@ != (
            #[trigger] self.archetypes@[b]).components@
        &&& forall|a: int, k: int, b: int, j: int|
            0 <= a < self.archetypes@.len() && 0 <= k < self.archetypes@[a].components@.len() && 0
                <= b < self.archetypes@.len() && 0 <= j < self.archetypes@[b].components@.len()
                && #[trigger] self.archetypes@[a].archetype_component_ids@[k]
                == #[trigger] self.archetypes@[b].archetype_component_ids@[j] ==> a == b && k == j
    }

    /// The live entity `e` stands where the allocator says it does.
    pub open(crate) spec fn entity_ok(&self, e: Entity) -> bool {
        let loc = self.entities@[e];
        let arch = self.archetypes@[loc.archetype_id as int];
        &&& loc.archetype_id < self.archetypes@.len()
        &&& loc.index < arch.entities@.len()
        &&& arch.entities@[loc.index as int] == e
        &&& forall|k: int|
            0 <= k < arch.components@.len() && arch.storages@[k] != StorageType::Table
                ==> self.sparse_sets@[(#[trigger] arch.components@[k]) as int].cell(e.id).is_some()
    }

    /// The entity in row `r` of archetype `a` is live and located there.
    pub open(crate) spec fn row_ok(&self, a: int, r: int, skip: Option<Entity>) -> bool {
        let e = self.archetypes@[a].entities@[r];
        &&& self.entities@.contains_key(e)
        &&& self.entities@[e].archetype_id == a
        &&& self.entities@[e].index == r
        &&& Some(e) != skip
    }

    /// The invariant of the store, but for the entity `skip`, which is
    /// live and stands in no row.
    pub open(crate) spec fn wf_except(&self, skip: Option<Entity>) -> bool {
        &&& self.structure_wf()
        &&& forall|e: Entity|
            self.entities@.contains_key(e) && Some(e) != skip ==> #[trigger] self.entity_ok(e)
        &&& forall|a: int, r: int|
            0 <= a < self.archetypes@.len() && 0 <= r < self.archetypes@[a].entities@.len()
                ==> #[trigger] self.row_ok(a, r, skip)
    }

    /// The invariant of the store.
    pub closed spec fn wf(&self) -> bool {
        self.wf_except(None)
    }

    /// A store that satisfies its invariant shows a well-formed view.
    pub proof fn lemma_view_wf(&self)
        requires
            self.wf(),
        ensures
            self@.wf(),
    {
        let v = self@;
        assert(v.entities.dom() =~= v.locations.dom());
        assert forall|a: int| 0 <= a < v.archetypes.len() implies {
            &&& strictly_sorted(#[trigger] v.archetypes[a].components)
            &&& v.archetypes[a].access_ids.len() == v.archetypes[a].components.len()
            &&& forall|k: int|
                0 <= k < v.archetypes[a].components.len() ==> {
                    &&& #[trigger] v.archetypes[a].components[k] < v.registry.len()
                    &&& v.archetypes[a].access_ids[k] < v.access_ids_issued
                }
        } by {
            assert(self.archetype_ok(a));
        }
        assert forall|a: int, b: int| 0 <= a < b < v.archetypes.len()
            implies #[trigger] v.archetypes[a].components
            != #[trigger] v.archetypes[b].components by {
            assert(self.archetypes@[a].components@ != self.archetypes@[b].components@);
        }
        assert forall|a: int, k: int, b: int, j: int|
            0 <= a < v.archetypes.len() && 0 <= k < v.archetypes[a].access_ids.len() && 0 <= b
                < v.archetypes.len() && 0 <= j < v.archetypes[b].access_ids.len()
                && #[trigger] v.archetypes[a].access_ids[k]
                == #[trigger] v.archetypes[b].access_ids[j] implies a == b && k == j by {
            assert(self.archetype_ok(a));
            assert(self.archetype_ok(b));
            assert(self.archetypes@[a].archetype_component_ids@[k]
                == self.archetypes@[b].archetype_component_ids@[j]);
        }
        assert forall|e: Entity| #[trigger] v.locations.contains_key(e) implies e.id
            < v.generations.len() && e.generation == v.generations[e.id as int] by {
            self.entities.lemma_live_generation(e);
        }
        assert forall|e: Entity| #[trigger] v.locations.contains_key(e) implies {
            let loc = v.locations[e];
            &&& loc.archetype_id < v.archetypes.len()
            &&& loc.index < v.archetypes[loc.archetype_id as int].entities.len()
            &&& v.archetypes[loc.archetype_id as int].entities[loc.index as int] == e
            &&& v.entities[e].dom() =~= v.archetypes[loc.archetype_id as int].components.to_set()
        } by {
            assert(self.entity_ok(e));
        }
        assert forall|a: int, r: int|
            0 <= a < v.archetypes.len() && 0 <= r < v.archetypes[a].entities.len() implies {
            let e = #[trigger] v.archetypes[a].entities[r];
            v.locations.contains_key(e) && v.locations[e].archetype_id == a && v.locations[e].index
                == r
        } by {
            assert(self.row_ok(a, r, None));
        }
    }

    /// An empty store: no entity, no component type, and the one archetype
    /// of entities without components.
    pub fn new() -> (world: World)
        ensures
            world.wf(),
            world@.registry == Seq::<ComponentDescriptor>::empty(),
            world@.entities == Map::<Entity, Map<ComponentId, Stored>>::empty(),
            world@.archetypes == seq![
                ArchetypeView {
                    components: Seq::<ComponentId>::empty(),
                    access_ids: Seq::<ArchetypeComponentId>::empty(),
                    entities: Seq::<Entity>::empty(),
                },
            ],
            world@.access_ids_issued == 0,
            world@.generations == Seq::<u32>::empty(),
            world@.free_indices == 0,
            world@.global_system_counter == 0,
            world@.exclusive_system_counter == 0,
    {
        let mut archetypes: Vec<Archetype> = Vec::new();
        archetypes.push(Archetype::new(0, Vec::new(), Vec::new(), 0));
        let world = World {
            entities: Entities::new(),
            components: Components::new(),
            archetypes,
            sparse_sets: Vec::new(),
            archetype_component_count: 0,
            global_system_counter: 0,
            exclusive_system_counter: 0,
        };
        proof {
            assert(world.archetype_ok(0));
            assert(world@.entities =~= Map::<Entity, Map<ComponentId, Stored>>::empty());
            assert(world@.archetypes[0].access_ids =~= Seq::<ArchetypeComponentId>::empty());
            assert(world@.archetypes[0].components =~= Seq::<ComponentId>::empty());
            assert(world@.archetypes[0].entities =~= Seq::<Entity>::empty());
            assert(world@.archetypes =~= seq![
                ArchetypeView {
                    components: Seq::<ComponentId>::empty(),
                    access_ids: Seq::<ArchetypeComponentId>::empty(),
                    entities: Seq::<Entity>::empty(),
                },
            ]);
        }
        world
    }

    /// Components, counters and archetype identities are as in `before`.
    pub open(crate) spec fn same_schema(&self, before: &World) -> bool {
        &&& self.components@ == before.components@
        &&& self.archetype_component_count == before.archetype_component_count
        &&& self.global_system_counter == before.global_system_counter
        &&& self.exclusive_system_counter == before.exclusive_system_counter
        &&& self.archetypes@.len() == before.archetypes@.len()
        &&& forall|a: int|
            0 <= a < self.archetypes@.len() ==> {
                &&& (#[trigger] self.archetypes@[a]).id == before.archetypes@[a].id
                &&& self.archetypes@[a].components@ == before.archetypes@[a].components@
                &&& self.archetypes@[a].storages@ == before.archetypes@[a].storages@
                &&& self.archetypes@[a].archetype_component_ids@
                    == before.archetypes@[a].archetype_component_ids@
            }
    }

    /// Every live entity of `before` other than `e` is live and has the
    /// components that it had.
    pub open(crate) spec fn others_unchanged(&self, before: &World, e: Entity) -> bool {
        forall|o: Entity|
            o != e && before.entities@.contains_key(o) ==> self.entities@.contains_key(o)
                && #[trigger] self.components_of(o) == before.components_of(o)
    }

    /// A store whose parts show what the parts of `before` show is as well
    /// formed as `before` and shows the same.
    pub(crate) proof fn lemma_same_placement(&self, before: &World, skip: Option<Entity>)
        requires
            before.wf_except(skip),
            self.entities.wf(),
            self.entities@ == before.entities@,
            self.entities.generations() == before.entities.generations(),
            self.entities.free_indices() == before.entities.free_indices(),
            self.components == before.components,
            self.archetypes == before.archetypes,
            self.sparse_sets == before.sparse_sets,
            self.archetype_component_count == before.archetype_component_count,
        ensures
            self.wf_except(skip),
            self@.entities == before@.entities,
            self@.archetypes == before@.archetypes,
            self@.locations == before@.locations,
            self@.registry == before@.registry,
            self@.access_ids_issued == before@.access_ids_issued,
            self@.generations == before@.generations,
            self@.free_indices == before@.free_indices,
    {
        assert forall|a: int| 0 <= a < self.archetypes@.len() implies #[trigger] self.archetype_ok(
            a,
        ) by {
            assert(before.archetype_ok(a));
        }
        assert forall|o: Entity|
            self.entities@.contains_key(o) && Some(o) != skip implies #[trigger] self.entity_ok(
            o,
        ) by {
            assert(before.entity_ok(o));
        }
        assert forall|a: int, r: int|
            0 <= a < self.archetypes@.len() && 0 <= r < self.archetypes@[a].entities@.len()
                implies #[trigger] self.row_ok(a, r, skip) by {
            assert(before.row_ok(a, r, skip));
        }
        assert(self@.entities =~= before@.entities);
        assert(self@.archetypes =~= before@.archetypes);
    }

    /// Puts the live entity `e`, which stands in no row, into a new last
    /// row of archetype `b`.
    fn attach(&mut self, e: Entity, b: ArchetypeId, cells: &Vec<Option<Stored>>)
        requires
            old(self).wf_except(Some(e)),
            old(self).entities@.contains_key(e),
            b < old(self).archetypes@.len(),
            old(self).archetypes@[b as int].accepts(cells@),
            forall|k: int|
                0 <= k < old(self).archetypes@[b as int].components@.len()
                    && old(self).archetypes@[b as int].storages@[k] != StorageType::Table
                        ==> old(self).sparse_sets@[(#[trigger] old(self).archetypes@[b as int].components@[k]) as int].cell(
                    e.id,
                ).is_some(),
        ensures
            final(self).wf(),
            final(self).same_schema(old(self)),
            final(self).sparse_sets@ == old(self).sparse_sets@,
            final(self).entities.generations() == old(self).entities.generations(),
            final(self).entities.free_indices() == old(self).entities.free_indices(),
            final(self).entities@ == old(self).entities@.insert(
                e,
                EntityLocation {
                    archetype_id: b,
                    index: old(self).archetypes@[b as int].entities@.len() as usize,
                },
            ),
            final(self).archetypes@[b as int].entities@
                == old(self).archetypes@[b as int].entities@.push(
                e,
            ),
            forall|a: int|
                0 <= a < old(self).archetypes@.len() && a != b ==> (
                #[trigger] final(self).archetypes@[a]).entities@
                    == old(self).archetypes@[a].entities@,
            final(self).others_unchanged(old(self), e),
            final(self).components_of(e) == row_map(
                old(self).archetypes@[b as int].components@,
                cells@,
                old(self).sparse_sets@,
                e.id,
            ),
    {
        let index: usize = self.archetypes[b].len();
        assert(old(self).archetype_ok(b as int));
        self.archetypes[b].push(e, cells);
        let location = EntityLocation { archetype_id: b, index };
        self.entities.set_location(e, location);
        proof {
            assert forall|a: int| 0 <= a < self.archetypes@.len()
                implies #[trigger] self.archetype_ok(
                a,
            ) by {
                assert(old(self).archetype_ok(a));
            }
            assert forall|o: Entity| self.entities@.contains_key(o)
                implies #[trigger] self.entity_ok(
                o,
            ) by {
                if o != e {
                    assert(old(self).entity_ok(o));
                }
            }
            assert forall|a: int, r: int|
                0 <= a < self.archetypes@.len() && 0 <= r < self.archetypes@[a].entities@.len()
                    implies #[trigger] self.row_ok(a, r, None) by {
                if a != b || r < index {
                    assert(old(self).row_ok(a, r, Some(e)));
                }
            }
            assert forall|o: Entity| o != e && old(self).entities@.contains_key(o)
                implies self.entities@.contains_key(
                o,
            ) && #[trigger] self.components_of(o) == old(self).components_of(o) by {
                assert(old(self).entity_ok(o));
                let loc = old(self).entities@[o];
                assert(old(self).archetype_ok(loc.archetype_id as int));
                assert(self.archetypes@[loc.archetype_id as int].row_cells(loc.index as int) =~=
                    old(self).archetypes@[loc.archetype_id as int].row_cells(loc.index as int));
            }
        }
    }

    /// Takes the live entity `e` out of its row and returns the cells of
    /// that row. The last row of the archetype takes its place.
    fn detach(&mut self, e: Entity, loc: EntityLocation) -> (cells: Vec<Option<Stored>>)
        requires
            old(self).wf(),
            old(self).entities@.contains_key(e),
            old(self).entities@[e] == loc,
        ensures
            final(self).wf_except(Some(e)),
            final(self).same_schema(old(self)),
            final(self).sparse_sets@ == old(self).sparse_sets@,
            final(self).entities@.dom() == old(self).entities@.dom(),
            final(self).entities.generations() == old(self).entities.generations(),
            final(self).entities.free_indices() == old(self).entities.free_indices(),
            final(self).entities@
                == (if loc.index + 1 < old(self).archetypes@[loc.archetype_id as int].entities@.len() {
                old(self).entities@.insert(
                    old(self).archetypes@[loc.archetype_id as int].entities@.last(),
                    loc,
                )
            } else {
                old(self).entities@
            }),
            final(self).archetypes@[loc.archetype_id as int].entities@ == swap_removed(
                old(self).archetypes@[loc.archetype_id as int].entities@,
                loc.index as int,
            ),
            forall|a: int|
                0 <= a < old(self).archetypes@.len() && a != loc.archetype_id ==> (
                #[trigger] final(self).archetypes@[a]).entities@
                    == old(self).archetypes@[a].entities@,
            final(self).others_unchanged(old(self), e),
            cells@ == old(self).archetypes@[loc.archetype_id as int].row_cells(loc.index as int),
    {
        let a: usize = loc.archetype_id;
        let row: usize = loc.index;
        assert(old(self).entity_ok(e));
        assert(old(self).archetype_ok(a as int));
        let ghost last = old(self).archetypes@[a as int].entities@.last();
        let ghost last_row = old(self).archetypes@[a as int].entities@.len() - 1;
        assert(old(self).row_ok(a as int, last_row, None));
        let cells = self.archetypes[a].swap_remove(row);
        if row < self.archetypes[a].len() {
            let moved: Entity = self.archetypes[a].entities[row];
            assert(moved == last);
            self.entities.set_location(moved, loc);
        }
        proof {
            assert(self.entities@.dom() =~= old(self).entities@.dom());
            assert forall|x: int| 0 <= x < self.archetypes@.len()
                implies #[trigger] self.archetype_ok(
                x,
            ) by {
                assert(old(self).archetype_ok(x));
            }
            assert forall|o: Entity|
                self.entities@.contains_key(o) && Some(o) != Some(e)
                    implies #[trigger] self.entity_ok(
                o,
            ) by {
                assert(old(self).entity_ok(o));
                let before = old(self).entities@[o];
                assert(old(self).row_ok(before.archetype_id as int, before.index as int, None));
            }
            assert forall|x: int, r: int|
                0 <= x < self.archetypes@.len() && 0 <= r < self.archetypes@[x].entities@.len()
                    implies #[trigger] self.row_ok(x, r, Some(e)) by {
                assert(old(self).row_ok(a as int, last_row, None));
                assert(old(self).row_ok(a as int, row as int, None));
                let xe = self.archetypes@[x].entities@[r];
                if x == a && r == row {
                } else {
                    assert(old(self).row_ok(x, r, None));
                    if x == a {
                        assert(xe == old(self).archetypes@[x].entities@[r]);
                    } else {
                        assert(self.archetypes@[x] == old(self).archetypes@[x]);
                    }
                }
            }
            assert forall|o: Entity| o != e && old(self).entities@.contains_key(o)
                implies self.entities@.contains_key(
                o,
            ) && #[trigger] self.components_of(o) == old(self).components_of(o) by {
                assert(old(self).entity_ok(o));
                let before = old(self).entities@[o];
                let after = self.entities@[o];
                assert(old(self).archetype_ok(before.archetype_id as int));
                assert(old(self).row_ok(before.archetype_id as int, before.index as int, None));
                assert(self.archetypes@[after.archetype_id as int].row_cells(after.index as int)
                    =~= old(self).archetypes@[before.archetype_id as int].row_cells(
                    before.index as int,
                ));
            }
        }
        cells
    }

    /// Nothing but the list of archetypes, which may have grown by one
    /// empty archetype, differs from `before`.
    pub open(crate) spec fn archetypes_extend(&self, before: &World) -> bool {
        &&& self.entities == before.entities
        &&& self.components == before.components
        &&& self.sparse_sets == before.sparse_sets
        &&& self.global_system_counter == before.global_system_counter
        &&& self.exclusive_system_counter == before.exclusive_system_counter
        &&& before.archetypes@.len() <= self.archetypes@.len() <= before.archetypes@.len() + 1
        &&& forall|a: int|
            0 <= a < before.archetypes@.len() ==> #[trigger] self.archetypes@[a]
                == before.archetypes@[a]
        &&& self.archetypes@.len() == before.archetypes@.len()
            ==> self.archetype_component_count == before.archetype_component_count
        &&& self.archetypes@.len() > before.archetypes@.len() ==> {
            let added = self.archetypes@[before.archetypes@.len() as int];
            &&& added.entities@.len() == 0
            &&& self.archetype_component_count == before.archetype_component_count
                + added.components@.len()
            &&& forall|k: int|
                0 <= k < added.components@.len() ==> #[trigger] added.archetype_component_ids@[k]
                    == before.archetype_component_count + k
        }
    }

    /// No archetype has exactly the component types `components`.
    pub open(crate) spec fn no_archetype_with(&self, components: Seq<ComponentId>) -> bool {
        forall|a: int|
            0 <= a < self.archetypes@.len() ==> (#[trigger] self.archetypes@[a]).components@
                != components
    }

    /// The archetype with exactly the given component types, which is
    /// created if there is none; nothing when the identifiers for a new
    /// archetype have run out.
    fn find_or_create_archetype(&mut self,
        components: &Vec<ComponentId>) -> (r: Option<ArchetypeId>)
        requires
            old(self).wf(),
            strictly_sorted(components@),
            forall|k: int|
                0 <= k < components@.len()
                    ==> #[trigger] components@[k] < old(self).components@.len(),
        ensures
            final(self).wf(),
            final(self).archetypes_extend(old(self)),
            r matches Some(b) ==> {
                &&& b < final(self).archetypes@.len()
                &&& final(self).archetypes@[b as int].components@ == components@
                &&& (b < old(self).archetypes@.len()
                    <==> final(self).archetypes@.len() == old(self).archetypes@.len())
            },
            r.is_none() ==> {
                &&& *final(self) == *old(self)
                &&& final(self).archetypes@.len() == old(self).archetypes@.len()
                &&& old(self).no_archetype_with(components@)
                &&& old(self).archetype_component_count + components@.len() > usize::MAX
            },
            r.is_some() && final(self).archetypes@.len() > old(self).archetypes@.len()
                ==> old(self).no_archetype_with(components@),
    {
        let mut a: usize = 0;
        while a < self.archetypes.len()
            invariant
                a <= self.archetypes@.len(),
                *self == *old(self),
                self.wf(),
                forall|x: int| 0 <= x < a
                    ==> (#[trigger] self.archetypes@[x]).components@ != components@,
            decreases self.archetypes@.len() - a,
        {
            if same_ids(&self.archetypes[a].components, components) {
                return Some(a);
            }
            a += 1;
        }
        let n: usize = components.len();
        if n > usize::MAX - self.archetype_component_count {
            return None;
        }
        let mut storages: Vec<StorageType> = Vec::new();
        let mut k: usize = 0;
        while k < n
            invariant
                k <= n,
                n == components@.len(),
                *self == *old(self),
                storages@.len() == k,
                forall|j: int|
                    0 <= j < components@.len()
                        ==> #[trigger] components@[j] < self.components@.len(),
                forall|j: int|
                    0 <= j < k ==> #[trigger] storages@[j]
                        == self.components@[components@[j] as int].storage_type,
            decreases n - k,
        {
            assert(components@[k as int] < self.components@.len());
            let descriptor = self.components.get_info(components[k]).unwrap();
            storages.push(descriptor.storage_type);
            k += 1;
        }
        let id: usize = self.archetypes.len();
        let archetype = Archetype::new(
            id,
            copy_ids(components),
            storages,
            self.archetype_component_count,
        );
        self.archetype_component_count = self.archetype_component_count + n;
        self.archetypes.push(archetype);
        proof {
            assert forall|x: int| 0 <= x < self.archetypes@.len()
                implies #[trigger] self.archetype_ok(
                x,
            ) by {
                if x < id {
                    assert(old(self).archetype_ok(x));
                }
            }
            assert forall|x: int, y: int| 0 <= x < y < self.archetypes@.len() implies (
            #[trigger] self.archetypes@[x]).components@
                != (#[trigger] self.archetypes@[y]).components@ by {
                if y < id {
                    assert(old(self).archetypes@[x].components@
                        != old(self).archetypes@[y].components@);
                }
            }
            assert forall|x: int, i: int, y: int, j: int|
                0 <= x < self.archetypes@.len() && 0 <= i < self.archetypes@[x].components@.len()
                    && 0
                    <= y < self.archetypes@.len() && 0 <= j < self.archetypes@[y].components@.len()
                    && #[trigger] self.archetypes@[x].archetype_component_ids@[i]
                    == #[trigger] self.archetypes@[y].archetype_component_ids@[j]
                        implies x == y && i
                == j by {
                assert(self.archetype_ok(x));
                assert(self.archetype_ok(y));
                if x < id {
                    assert(old(self).archetype_ok(x));
                    assert(old(self).archetypes@[x].components@[i] < old(self).components@.len());
                }
                if y < id {
                    assert(old(self).archetype_ok(y));
                    assert(old(self).archetypes@[y].components@[j] < old(self).components@.len());
                }
                if x < id && y < id {
                    assert(old(self).archetypes@[x].archetype_component_ids@[i]
                        == old(self).archetypes@[y].archetype_component_ids@[j]);
                }
            }
            assert forall|o: Entity| self.entities@.contains_key(o)
                implies #[trigger] self.entity_ok(
                o,
            ) by {
                assert(old(self).entity_ok(o));
            }
            assert forall|x: int, r: int|
                0 <= x < self.archetypes@.len() && 0 <= r < self.archetypes@[x].entities@.len()
                    implies #[trigger] self.row_ok(x, r, None) by {
                assert(old(self).row_ok(x, r, None));
            }
        }
        Some(id)
    }

    /// Overwrites the cell that the live entity `e` has for a component type.
    fn write_cell(&mut self, e: Entity, loc: EntityLocation, c: ComponentId, cell: Stored)
        requires
            old(self).wf(),
            old(self).entities@.contains_key(e),
            old(self).entities@[e] == loc,
            old(self).archetypes@[loc.archetype_id as int].components@.contains(c),
        ensures
            final(self).wf(),
            final(self).same_schema(old(self)),
            final(self).entities == old(self).entities,
            forall|a: int|
                0 <= a < old(self).archetypes@.len()
                    ==> (#[trigger] final(self).archetypes@[a]).entities@
                    == old(self).archetypes@[a].entities@,
            final(self).others_unchanged(old(self), e),
            final(self).components_of(e) == old(self).components_of(e).insert(c, cell),
    {
        let a: usize = loc.archetype_id;
        assert(old(self).entity_ok(e));
        assert(old(self).archetype_ok(a as int));
        let found = self.archetypes[a].index_of(c);
        let k: usize = found.unwrap();
        proof {
            lemma_position(self.archetypes@[a as int].components@, c, k as int);
        }
        match self.archetypes[a].storages[k] {
            StorageType::Table => {
                self.archetypes[a].set_cell(k, loc.index, cell);
            },
            StorageType::SparseSet => {
                self.sparse_sets[c].insert(e.id, cell);
            },
        }
        proof {
            assert forall|x: int| 0 <= x < self.archetypes@.len()
                implies #[trigger] self.archetype_ok(
                x,
            ) by {
                assert(old(self).archetype_ok(x));
            }
            assert forall|o: Entity| self.entities@.contains_key(o)
                implies #[trigger] self.entity_ok(
                o,
            ) by {
                assert(old(self).entity_ok(o));
                let at = old(self).entities@[o];
                assert(old(self).archetype_ok(at.archetype_id as int));
                let home = self.archetypes@[at.archetype_id as int];
                assert forall|j: int|
                    0 <= j < home.components@.len() && home.storages@[j]
                        != StorageType::Table implies self.sparse_sets@[(
                #[trigger] home.components@[j]) as int].cell(o.id).is_some() by {
                    let d = old(self).archetypes@[at.archetype_id as int].components@[j];
                    assert(old(self).sparse_sets@[d as int].cell(o.id).is_some());
                }
            }
            assert forall|x: int, r: int|
                0 <= x < self.archetypes@.len() && 0 <= r < self.archetypes@[x].entities@.len()
                    implies #[trigger] self.row_ok(x, r, None) by {
                assert(old(self).row_ok(x, r, None));
            }
            assert forall|o: Entity| o != e && old(self).entities@.contains_key(o)
                implies self.entities@.contains_key(
                o,
            ) && #[trigger] self.components_of(o) == old(self).components_of(o) by {
                assert(old(self).entity_ok(o));
                let at = old(self).entities@[o];
                assert(old(self).archetype_ok(at.archetype_id as int));
                assert(old(self).row_ok(at.archetype_id as int, at.index as int, None));
                if o.id == e.id {
                    old(self).entities.lemma_live_handles_never_alias(o, e);
                }
                assert(self.archetypes@[at.archetype_id as int].row_cells(at.index as int) =~=
                    old(self).archetypes@[at.archetype_id as int].row_cells(at.index as int));
                assert(self.components_of(o) =~= old(self).components_of(o));
            }
            let arch = old(self).archetypes@[a as int];
            assert forall|d: ComponentId| arch.components@.contains(d)
                implies #[trigger] self.components_of(
                e,
            )[d] == old(self).components_of(e).insert(c, cell)[d] by {
                lemma_position_of_member(arch.components@, d);
                let j = position(arch.components@, d);
                if d != c {
                    assert(j != k);
                }
            }
            assert(self.components_of(e) =~= old(self).components_of(e).insert(c, cell));
        }
    }

    /// The row that an entity gets in archetype `b`: a new cell for each
    /// component type of the bundle, the old cell for each other type.
    fn build_row(
        &self,
        a: ArchetypeId,
        b: ArchetypeId,
        old_cells: &Vec<Option<Stored>>,
        bundle: &Bundle,
        tick: u32,
    ) -> (cells: Vec<Option<Stored>>)
        requires
            self.structure_wf(),
            a < self.archetypes@.len(),
            b < self.archetypes@.len(),
            bundle.wf(),
            self.archetypes@[a as int].accepts(old_cells@),
            forall|k: int|
                0 <= k < self.archetypes@[b as int].components@.len()
                    ==> self.archetypes@[a as int].components@.contains(
                 #[trigger] self.archetypes@[b as int].components@[k]) || bundle@.contains_key(
                    self.archetypes@[b as int].components@[k],
                ),
        ensures
            self.archetypes@[b as int].accepts(cells@),
            forall|k: int|
                0 <= k < self.archetypes@[b as int].components@.len() ==> #[trigger] cells@[k] == (
                if self.archetypes@[b as int].storages@[k] != StorageType::Table {
                    None
                } else if bundle@.contains_key(self.archetypes@[b as int].components@[k]) {
                    Some(
                        Stored::inserted(bundle@[self.archetypes@[b as int].components@[k]], tick),
                    )
                } else {
                    old_cells@[position(
                        self.archetypes@[a as int].components@,
                        self.archetypes@[b as int].components@[k],
                    )]
                }),
    {
        assert(self.archetype_ok(a as int));
        assert(self.archetype_ok(b as int));
        let source = &self.archetypes[a];
        let target = &self.archetypes[b];
        let mut cells: Vec<Option<Stored>> = Vec::new();
        let mut k: usize = 0;
        while k < target.components.len()
            invariant
                k <= target.components@.len(),
                self.archetype_ok(a as int),
                self.archetype_ok(b as int),
                *source == self.archetypes@[a as int],
                *target == self.archetypes@[b as int],
                bundle.wf(),
                source.accepts(old_cells@),
                forall|j: int|
                    0 <= j < target.components@.len() ==> source.components@.contains(
                     #[trigger] target.components@[j])
                         || bundle@.contains_key(target.components@[j]),
                cells@.len() == k,
                forall|j: int|
                    0 <= j < k ==> #[trigger] cells@[j] == (if target.storages@[j]
                        != StorageType::Table {
                        None
                    } else if bundle@.contains_key(target.components@[j]) {
                        Some(Stored::inserted(bundle@[target.components@[j]], tick))
                    } else {
                        old_cells@[position(source.components@, target.components@[j])]
                    }),
                forall|j: int|
                    0 <= j < k ==> ((#[trigger] cells@[j]).is_some() <==> target.storages@[j]
                        == StorageType::Table),
            decreases target.components@.len() - k,
        {
            let c: ComponentId = target.components[k];
            match target.storages[k] {
                StorageType::SparseSet => {
                    cells.push(None);
                },
                StorageType::Table => {
                    match bundle.get(c) {
                        Some(value) => {
                            cells.push(Some(Stored::new(value, tick)));
                        },
                        None => {
                            assert(source.components@.contains(target.components@[k as int]));
                            let found = source.index_of(c);
                            let j: usize = found.unwrap();
                            proof {
                                lemma_position(source.components@, c, j as int);
                                assert(source.components@[j as int] < self.components@.len());
                                assert(target.components@[k as int] < self.components@.len());
                            }
                            cells.push(old_cells[j]);
                        },
                    }
                },
            }
            k += 1;
        }
        cells
    }

    /// Stores, for the entity `e`, the values that the bundle holds for
    /// component types that are kept outside the archetypes.
    fn store_sparse(&mut self, e: Entity, bundle: &Bundle, tick: u32)
        requires
            old(self).wf_except(Some(e)),
            old(self).entities@.contains_key(e),
            bundle.wf(),
            forall|i: int|
                0 <= i < bundle.ids@.len()
                    ==> #[trigger] bundle.ids@[i] < old(self).components@.len(),
        ensures
            final(self).wf_except(Some(e)),
            final(self).same_schema(old(self)),
            final(self).entities == old(self).entities,
            final(self).archetypes == old(self).archetypes,
            final(self).others_unchanged(old(self), e),
            final(self).sparse_sets@.len() == old(self).sparse_sets@.len(),
            forall|c: ComponentId|
                c < old(self).sparse_sets@.len()
                    ==> (#[trigger] final(self).sparse_sets@[c as int]).cell(
                    e.id,
                ) == (if bundle@.contains_key(c) && old(self).components@[c as int].storage_type
                    != StorageType::Table {
                    Some(Stored::inserted(bundle@[c], tick))
                } else {
                    old(self).sparse_sets@[c as int].cell(e.id)
                }),
    {
        let mut i: usize = 0;
        while i < bundle.ids.len()
            invariant
                i <= bundle.ids@.len(),
                bundle.wf(),
                old(self).structure_wf(),
                forall|j: int|
                    0 <= j < bundle.ids@.len()
                        ==> #[trigger] bundle.ids@[j] < old(self).components@.len(),
                self.entities == old(self).entities,
                self.archetypes == old(self).archetypes,
                self.components == old(self).components,
                self.archetype_component_count == old(self).archetype_component_count,
                self.global_system_counter == old(self).global_system_counter,
                self.exclusive_system_counter == old(self).exclusive_system_counter,
                self.sparse_sets@.len() == old(self).sparse_sets@.len(),
                forall|c: ComponentId, other: u32|
                    c < self.sparse_sets@.len() && other != e.id
                        ==> #[trigger] self.sparse_sets@[c as int].cell(other)
                            == old(self).sparse_sets@[c as int].cell(other),
                forall|c: ComponentId|
                    c < self.sparse_sets@.len()
                        ==> (#[trigger] self.sparse_sets@[c as int]).cell(e.id)
                        == (if (exists|j: int| 0 <= j < i && bundle.ids@[j] == c)
                            && old(self).components@[c as int].storage_type != StorageType::Table {
                        Some(Stored::inserted(bundle@[c], tick))
                    } else {
                        old(self).sparse_sets@[c as int].cell(e.id)
                    }),
            decreases bundle.ids@.len() - i,
        {
            let c: ComponentId = bundle.ids[i];
            let info = self.components.get_info(c);
            let ghost before = self.sparse_sets@;
            proof {
                bundle.lemma_entry(i as int);
            }
            match info {
                Some(descriptor) => {
                    match descriptor.storage_type {
                        StorageType::SparseSet => {
                            self.sparse_sets[c].insert(e.id, Stored::new(bundle.values[i], tick));
                        },
                        StorageType::Table => {},
                    }
                },
                None => {},
            }
            proof {
                assert forall|d: ComponentId|
                    d < self.sparse_sets@.len()
                        implies (#[trigger] self.sparse_sets@[d as int]).cell(
                    e.id,
                ) == (if (exists|j: int| 0 <= j < i + 1 && bundle.ids@[j] == d)
                    && old(self).components@[d as int].storage_type != StorageType::Table {
                    Some(Stored::inserted(bundle@[d], tick))
                } else {
                    old(self).sparse_sets@[d as int].cell(e.id)
                }) by {
                    if d == c {
                        assert(bundle.ids@[i as int] == d);
                    } else {
                        assert(self.sparse_sets@[d as int] == before[d as int]);
                        if exists|j: int| 0 <= j < i + 1 && bundle.ids@[j] == d {
                            let j = choose|j: int| 0 <= j < i + 1 && bundle.ids@[j] == d;
                            assert(j < i);
                        }
                    }
                }
            }
            i += 1;
        }
        proof {
            assert forall|c: ComponentId|
                c < old(self).sparse_sets@.len()
                    implies (#[trigger] self.sparse_sets@[c as int]).cell(
                e.id,
            ) == (if bundle@.contains_key(c) && old(self).components@[c as int].storage_type
                != StorageType::Table {
                Some(Stored::inserted(bundle@[c], tick))
            } else {
                old(self).sparse_sets@[c as int].cell(e.id)
            }) by {
                bundle.lemma_view(c);
                if bundle.ids@.contains(c) {
                    let j = choose|j: int| 0 <= j < bundle.ids@.len() && bundle.ids@[j] == c;
                    assert(0 <= j < i && bundle.ids@[j] == c);
                }
            }
            assert forall|x: int| 0 <= x < self.archetypes@.len()
                implies #[trigger] self.archetype_ok(
                x,
            ) by {
                assert(old(self).archetype_ok(x));
            }
            assert forall|o: Entity|
                self.entities@.contains_key(o) && Some(o) != Some(e)
                    implies #[trigger] self.entity_ok(
                o,
            ) by {
                assert(old(self).entity_ok(o));
                if o.id == e.id {
                    old(self).entities.lemma_live_handles_never_alias(o, e);
                }
                let at = old(self).entities@[o];
                assert(old(self).archetype_ok(at.archetype_id as int));
                let home = self.archetypes@[at.archetype_id as int];
                assert forall|j: int|
                    0 <= j < home.components@.len() && home.storages@[j]
                        != StorageType::Table implies self.sparse_sets@[(
                #[trigger] home.components@[j]) as int].cell(o.id).is_some() by {
                    let d = home.components@[j];
                    assert(old(self).sparse_sets@[d as int].cell(o.id).is_some());
                    assert(self.sparse_sets@[d as int].cell(o.id)
                        == old(self).sparse_sets@[d as int].cell(
                        o.id,
                    ));
                }
            }
            assert forall|x: int, r: int|
                0 <= x < self.archetypes@.len() && 0 <= r < self.archetypes@[x].entities@.len()
                    implies #[trigger] self.row_ok(x, r, Some(e)) by {
                assert(old(self).row_ok(x, r, Some(e)));
            }
            assert forall|o: Entity| o != e && old(self).entities@.contains_key(o)
                implies self.entities@.contains_key(
                o,
            ) && #[trigger] self.components_of(o) == old(self).components_of(o) by {
                assert(old(self).entity_ok(o));
                if o.id == e.id {
                    old(self).entities.lemma_live_handles_never_alias(o, e);
                }
                let at = old(self).entities@[o];
                assert(old(self).archetype_ok(at.archetype_id as int));
                let home = self.archetypes@[at.archetype_id as int];
                assert forall|d: ComponentId| home.components@.contains(d)
                    implies self.sparse_sets@[d as int].cell(
                    o.id,
                ) == old(self).sparse_sets@[d as int].cell(o.id) by {
                    lemma_position_of_member(home.components@, d);
                    assert(home.components@[position(home.components@, d)]
                        < self.components@.len());
                }
                assert(self.components_of(o) =~= old(self).components_of(o));
            }
        }
    }

    /// Moves the live entity `e` into a new last row of another archetype,
    /// `b`: with a new cell for each component type of the bundle and the
    /// old cell for each other type of `b`.
    fn migrate(&mut self, e: Entity, loc: EntityLocation, b: ArchetypeId, bundle: &Bundle)
        requires
            old(self).wf(),
            old(self).entities@.contains_key(e),
            old(self).entities@[e] == loc,
            b < old(self).archetypes@.len(),
            b != loc.archetype_id,
            bundle.wf(),
            forall|i: int|
                0 <= i < bundle.ids@.len()
                    ==> #[trigger] bundle.ids@[i] < old(self).components@.len(),
            forall|k: int|
                0 <= k < old(self).archetypes@[b as int].components@.len()
                    ==> old(self).archetypes@[loc.archetype_id as int].components@.contains(
                     #[trigger] old(self).archetypes@[b as int].components@[k])
                         || bundle@.contains_key(
                    old(self).archetypes@[b as int].components@[k],
                ),
        ensures
            final(self).wf(),
            final(self).same_schema(old(self)),
            final(self).components_of(e) == merged(
                old(self).components_of(e),
                old(self).archetypes@[b as int].components@,
                bundle@,
                old(self).global_system_counter,
            ),
            final(self).others_unchanged(old(self), e),
            final(self).entities@.dom() == old(self).entities@.dom(),
            final(self).entities.generations() == old(self).entities.generations(),
            final(self).entities.free_indices() == old(self).entities.free_indices(),
            final(self).entities@
                == (if loc.index + 1 < old(self).archetypes@[loc.archetype_id as int].entities@.len() {
                old(self).entities@.insert(
                    old(self).archetypes@[loc.archetype_id as int].entities@.last(),
                    loc,
                )
            } else {
                old(self).entities@
            }).insert(
                e,
                EntityLocation {
                    archetype_id: b,
                    index: old(self).archetypes@[b as int].entities@.len() as usize,
                },
            ),
            final(self).archetypes@[loc.archetype_id as int].entities@ == swap_removed(
                old(self).archetypes@[loc.archetype_id as int].entities@,
                loc.index as int,
            ),
            final(self).archetypes@[b as int].entities@
                == old(self).archetypes@[b as int].entities@.push(
                e,
            ),
            forall|x: int|
                0 <= x < old(self).archetypes@.len() && x != loc.archetype_id && x != b ==> (
                #[trigger] final(self).archetypes@[x]).entities@
                    == old(self).archetypes@[x].entities@,
    {
        let a: usize = loc.archetype_id;
        let tick: u32 = self.global_system_counter;
        proof {
            assert(old(self).entity_ok(e));
            assert(old(self).archetype_ok(a as int));
            assert(old(self).archetype_ok(b as int));
        }
        let old_cells = self.detach(e, loc);
        let ghost detached = *self;
        let new_cells = self.build_row(a, b, &old_cells, bundle, tick);
        self.store_sparse(e, bundle, tick);
        let ghost stored = *self;
        proof {
            let source = old(self).archetypes@[a as int];
            let target = old(self).archetypes@[b as int];
            assert forall|k: int|
                0 <= k < target.components@.len() && target.storages@[k]
                    != StorageType::Table implies self.sparse_sets@[(
            #[trigger] target.components@[k]) as int].cell(e.id).is_some() by {
                let c = target.components@[k];
                if !bundle@.contains_key(c) {
                    assert(source.components@.contains(c));
                    lemma_position_of_member(source.components@, c);
                    let j = position(source.components@, c);
                    assert(source.components@[j] < old(self).components@.len());
                    assert(old(self).sparse_sets@[source.components@[j] as int].cell(e.id).is_some());
                }
            }
        }
        self.attach(e, b, &new_cells);
        proof {
            let source = old(self).archetypes@[a as int];
            let target = old(self).archetypes@[b as int];
            let want = merged(old(self).components_of(e), target.components@, bundle@, tick);
            assert forall|c: ComponentId| target.components@.contains(c)
                implies #[trigger] self.components_of(
                e,
            )[c] == want[c] by {
                lemma_position_of_member(target.components@, c);
                let k = position(target.components@, c);
                assert(target.components@[k] < old(self).components@.len());
                assert(new_cells@[k] == new_cells@[k]);
                if !bundle@.contains_key(c) {
                    assert(source.components@.contains(c));
                    lemma_position_of_member(source.components@, c);
                    let j = position(source.components@, c);
                    assert(source.components@[j] < old(self).components@.len());
                    assert(old_cells@[j] == source.row_cells(loc.index as int)[j]);
                }
            }
            assert(self.components_of(e) =~= want);
            assert(self.entities@.dom() =~= old(self).entities@.dom());
            assert forall|o: Entity| o != e && old(self).entities@.contains_key(o)
                implies self.entities@.contains_key(
                o,
            ) && #[trigger] self.components_of(o) == old(self).components_of(o) by {
                assert(detached.components_of(o) == old(self).components_of(o));
                assert(detached.entities@.contains_key(o));
                assert(stored.components_of(o) == detached.components_of(o));
            }
        }
    }

    /// What holds after the live entity `e` was given new components in
    /// the archetype `b`, which `extended` has and `before` may lack:
    /// `after` shows what [`WorldView::moved`] describes.
    proof fn lemma_moved(
        before: &World,
        extended: &World,
        after: &World,
        e: Entity,
        b: ArchetypeId,
        components: Map<ComponentId, Stored>,
    )
        requires
            before.wf(),
            before.entities@.contains_key(e),
            extended.wf(),
            extended.archetypes_extend(before),
            b < extended.archetypes@.len(),
            b < before.archetypes@.len()
                <==> extended.archetypes@.len() == before.archetypes@.len(),
            extended.archetypes@.len() > before.archetypes@.len() ==> before.no_archetype_with(
                extended.archetypes@[b as int].components@,
            ),
            after.same_schema(extended),
            after.components_of(e) == components,
            after.others_unchanged(extended, e),
            after.entities@.dom() == extended.entities@.dom(),
            after.entities.generations() == extended.entities.generations(),
            after.entities.free_indices() == extended.entities.free_indices(),
            b == before.entities@[e].archetype_id ==> {
                &&& after.entities@ == extended.entities@
                &&& forall|x: int|
                    0 <= x < extended.archetypes@.len()
                        ==> (#[trigger] after.archetypes@[x]).entities@
                        == extended.archetypes@[x].entities@
            },
            b != before.entities@[e].archetype_id ==> {
                let loc = before.entities@[e];
                &&& after.entities@ == (if loc.index + 1
                    < extended.archetypes@[loc.archetype_id as int].entities@.len() {
                    extended.entities@.insert(
                        extended.archetypes@[loc.archetype_id as int].entities@.last(),
                        loc,
                    )
                } else {
                    extended.entities@
                }).insert(
                    e,
                    EntityLocation {
                        archetype_id: b,
                        index: extended.archetypes@[b as int].entities@.len() as usize,
                    },
                )
                &&& after.archetypes@[loc.archetype_id as int].entities@ == swap_removed(
                    extended.archetypes@[loc.archetype_id as int].entities@,
                    loc.index as int,
                )
                &&& after.archetypes@[b as int].entities@
                    == extended.archetypes@[b as int].entities@.push(
                    e,
                )
                &&& forall|x: int|
                    0 <= x < extended.archetypes@.len() && x != loc.archetype_id && x != b ==> (
                    #[trigger] after.archetypes@[x]).entities@ == extended.archetypes@[x].entities@
            },
        ensures
            after@ == before@.moved(e, extended.archetypes@[b as int].components@, components),
    {
        let target = extended.archetypes@[b as int].components@;
        let v = before@;
        let loc = before.entities@[e];
        assert(before.entity_ok(e));
        let grown = extended.archetypes@.len() > before.archetypes@.len();
        // The extended store shows the view with the archetype added.
        if grown {
            assert(b == before.archetypes@.len());
            assert(!v.has_archetype(target)) by {
                if v.has_archetype(target) {
                    let x = choose|x: int|
                        0 <= x < v.archetypes.len()
                            && #[trigger] v.archetypes[x].components == target;
                    assert(before.archetypes@[x].components@ == target);
                }
            }
            let added = extended.archetypes@[b as int];
            assert(extended.archetype_ok(b as int));
            assert(extended@.archetypes[b as int].access_ids =~= Seq::new(
                target.len(),
                |k: int| (v.access_ids_issued + k) as usize,
            ));
            assert(extended@.archetypes[b as int].entities =~= Seq::<Entity>::empty());
            assert(extended@.archetypes =~= v.with_archetype(target).archetypes);
        } else {
            assert(v.archetypes[b as int].components == target);
            assert(v.has_archetype(target));
            assert(extended@.archetypes =~= v.archetypes);
        }
        let ext = if v.has_archetype(target) {
            v
        } else {
            v.with_archetype(target)
        };
        assert(extended@.entities =~= v.entities) by {
            assert forall|o: Entity| extended.entities@.contains_key(o)
                implies extended.components_of(
                o,
            ) == before.components_of(o) by {
                assert(before.entity_ok(o));
            }
        }
        assert(extended@ == ext);
        // The archetype with the target types is `b`.
        assert(ext.archetypes[b as int].components == target);
        let chosen = ext.archetype_with(target);
        assert(0 <= chosen < ext.archetypes.len() && ext.archetypes[chosen].components == target);
        assert(chosen == b) by {
            if chosen < b {
                assert(extended.archetypes@[chosen].components@
                    != extended.archetypes@[b as int].components@);
            }
            if b < chosen {
                assert(extended.archetypes@[b as int].components@
                    != extended.archetypes@[chosen].components@);
            }
        }
        let placed = if b == loc.archetype_id {
            ext
        } else {
            ext.detached(e).attached(e, b as int)
        };
        assert(after@.archetypes =~= placed.archetypes) by {
            assert forall|x: int| 0 <= x < after@.archetypes.len() implies after@.archetypes[x]
                == placed.archetypes[x] by {
                assert(after.archetypes@[x].components@ == extended.archetypes@[x].components@);
            }
        }
        assert(after@.locations =~= placed.locations);
        assert(after@.entities =~= v.entities.insert(e, components)) by {
            assert forall|o: Entity| o != e && after.entities@.contains_key(o)
                implies after.components_of(
                o,
            ) == before.components_of(o) by {
                assert(before.entity_ok(o));
                assert(extended.components_of(o) == before.components_of(o));
            }
        }
    }

    /// True iff every identifier of the list is below `bound`.
    fn ids_below(ids: &Vec<ComponentId>, bound: usize) -> (r: bool)
        ensures
            r == (forall|i: int| 0 <= i < ids@.len() ==> #[trigger] ids@[i] < bound),
    {
        let mut i: usize = 0;
        while i < ids.len()
            invariant
                i <= ids@.len(),
                forall|j: int| 0 <= j < i ==> #[trigger] ids@[j] < bound,
            decreases ids@.len() - i,
        {
            if ids[i] >= bound {
                return false;
            }
            i += 1;
        }
        true
    }

    /// Overwrites, for the live entity `e`, the cells of the component
    /// types of the bundle, all of which the entity holds.
    fn write_bundle(&mut self, e: Entity, loc: EntityLocation, bundle: &Bundle)
        requires
            old(self).wf(),
            old(self).entities@.contains_key(e),
            old(self).entities@[e] == loc,
            bundle.wf(),
            forall|i: int|
                0 <= i < bundle.ids@.len()
                    ==> old(self).archetypes@[loc.archetype_id as int].components@.contains(
                 #[trigger] bundle.ids@[i]),
        ensures
            final(self).wf(),
            final(self).same_schema(old(self)),
            final(self).entities == old(self).entities,
            forall|a: int|
                0 <= a < old(self).archetypes@.len()
                    ==> (#[trigger] final(self).archetypes@[a]).entities@
                    == old(self).archetypes@[a].entities@,
            final(self).others_unchanged(old(self), e),
            final(self).components_of(e) == merged(
                old(self).components_of(e),
                old(self).archetypes@[loc.archetype_id as int].components@,
                bundle@,
                old(self).global_system_counter,
            ),
    {
        let tick: u32 = self.global_system_counter;
        let ghost home = old(self).archetypes@[loc.archetype_id as int].components@;
        proof {
            assert(old(self).entity_ok(e));
            assert(self.components_of(e) =~= Map::new(
                |c: ComponentId| home.contains(c),
                |c: ComponentId|
                    if in_prefix(bundle.ids@, 0, c) {
                        Stored::inserted(bundle@[c], tick)
                    } else {
                        old(self).components_of(e)[c]
                    },
            ));
        }
        let mut i: usize = 0;
        while i < bundle.ids.len()
            invariant
                i <= bundle.ids@.len(),
                bundle.wf(),
                self.wf(),
                self.same_schema(old(self)),
                self.entities == old(self).entities,
                self.entities@.contains_key(e),
                self.entities@[e] == loc,
                loc.archetype_id < old(self).archetypes@.len(),
                tick == old(self).global_system_counter,
                home == old(self).archetypes@[loc.archetype_id as int].components@,
                forall|j: int| 0 <= j < bundle.ids@.len()
                    ==> home.contains(#[trigger] bundle.ids@[j]),
                forall|a: int|
                    0 <= a < old(self).archetypes@.len()
                        ==> (#[trigger] self.archetypes@[a]).entities@
                        == old(self).archetypes@[a].entities@,
                self.others_unchanged(old(self), e),
                self.components_of(e) == Map::new(
                    |c: ComponentId| home.contains(c),
                    |c: ComponentId|
                        if in_prefix(bundle.ids@, i as int, c) {
                            Stored::inserted(bundle@[c], tick)
                        } else {
                            old(self).components_of(e)[c]
                        },
                ),
            decreases bundle.ids@.len() - i,
        {
            let ghost before = *self;
            let c: ComponentId = bundle.ids[i];
            proof {
                bundle.lemma_entry(i as int);
                assert(home.contains(bundle.ids@[i as int]));
                assert(self.archetypes@[loc.archetype_id as int].components@ == home);
            }
            self.write_cell(e, loc, c, Stored::new(bundle.values[i], tick));
            proof {
                assert forall|o: Entity| o != e && old(self).entities@.contains_key(o)
                    implies self.entities@.contains_key(
                    o,
                ) && #[trigger] self.components_of(o) == old(self).components_of(o) by {
                    assert(before.components_of(o) == old(self).components_of(o));
                }
                assert forall|d: ComponentId| home.contains(d)
                    implies #[trigger] self.components_of(
                    e,
                )[d] == (if in_prefix(bundle.ids@, i + 1, d) {
                    Stored::inserted(bundle@[d], tick)
                } else {
                    old(self).components_of(e)[d]
                }) by {
                    lemma_in_prefix_step(bundle.ids@, i as int, d);
                }
                assert(self.components_of(e) =~= Map::new(
                    |d: ComponentId| home.contains(d),
                    |d: ComponentId|
                        if in_prefix(bundle.ids@, i + 1, d) {
                            Stored::inserted(bundle@[d], tick)
                        } else {
                            old(self).components_of(e)[d]
                        },
                ));
            }
            i += 1;
        }
        proof {
            assert forall|d: ComponentId| home.contains(d)
                implies #[trigger] self.components_of(e)[d]
                == merged(old(self).components_of(e), home, bundle@, tick)[d] by {
                lemma_in_prefix_all(bundle.ids@, d);
                bundle.lemma_view(d);
            }
            assert(self.components_of(e) =~= merged(old(self).components_of(e), home, bundle@,
                tick));
        }
    }

    /// Gives the entity the components of the bundle. A component that
    /// the entity holds already is overwritten in place; otherwise the
    /// entity moves to the archetype of its new component types. Every
    /// cell written gets the current global counter as both counters.
    pub fn insert_bundle(&mut self, entity: Entity, bundle: &Bundle) -> (r: Result<(), WorldError>)
        requires
            old(self).wf(),
            bundle.wf(),
        ensures
            final(self).wf(),
            r == old(self)@.insert_result(entity, bundle@),
            r.is_ok() ==> final(self)@ == old(self)@.moved(
                entity,
                old(self)@.bundle_target(entity, bundle@),
                old(self)@.with_bundle(entity, bundle@),
            ),
            r.is_err() ==> final(self)@ == old(self)@,
    {
        let loc = match self.entities.get(entity) {
            Some(loc) => loc,
            None => {
                return Err(WorldError::NoSuchEntity);
            },
        };
        if !Self::ids_below(&bundle.ids, self.components.len()) {
            proof {
                let i = choose|i: int|
                    0 <= i < bundle.ids@.len()
                        && !(#[trigger] bundle.ids@[i] < self.components@.len());
                bundle.lemma_entry(i);
            }
            return Err(WorldError::UnknownComponent);
        }
        let a: usize = loc.archetype_id;
        proof {
            assert(self.entity_ok(entity));
            assert(self.archetype_ok(a as int));
            assert forall|c: ComponentId| bundle@.contains_key(c)
                implies c < self@.registry.len() by {
                bundle.lemma_view(c);
                let j = choose|j: int| 0 <= j < bundle.ids@.len() && bundle.ids@[j] == c;
                assert(bundle.ids@[j] < self.components@.len());
            }
        }
        let ghost home = self.archetypes@[a as int].components@;
        let mut target: Vec<ComponentId> = copy_ids(&self.archetypes[a].components);
        let mut i: usize = 0;
        proof {
            assert forall|x: ComponentId| #[trigger]
                target@.contains(x) <==> home.contains(x) || in_prefix(bundle.ids@, 0, x) by {}
        }
        while i < bundle.ids.len()
            invariant
                i <= bundle.ids@.len(),
                strictly_sorted(target@),
                forall|x: ComponentId| #[trigger]
                    target@.contains(x) <==> home.contains(x)
                        || in_prefix(bundle.ids@, i as int, x),
            decreases bundle.ids@.len() - i,
        {
            let ghost before = target@;
            insert_sorted(&mut target, bundle.ids[i]);
            proof {
                assert forall|x: ComponentId| #[trigger]
                    target@.contains(x) <==> home.contains(x) || in_prefix(
                        bundle.ids@,
                        i + 1,
                        x,
                    ) by {
                    lemma_in_prefix_step(bundle.ids@, i as int, x);
                    assert(before.contains(x) <==> home.contains(x) || in_prefix(
                        bundle.ids@,
                        i as int,
                        x,
                    ));
                }
            }
            i += 1;
        }
        proof {
            assert forall|x: ComponentId|
                target@.contains(x) <==> home.contains(x) || bundle@.contains_key(x) by {
                bundle.lemma_view(x);
                lemma_in_prefix_all(bundle.ids@, x);
            }
            assert forall|k: int| 0 <= k < target@.len() implies #[trigger] target@[k]
                < self.components@.len() by {
                let x = target@[k];
                assert(target@.contains(x));
                if home.contains(x) {
                    lemma_position_of_member(home, x);
                    assert(home[position(home, x)] < self.components@.len());
                }
            }
            lemma_sorted_members(target@, self@.entities[entity].dom().union(bundle@.dom()));
            assert(self@.bundle_target(entity, bundle@) == target@);
        }
        let found = self.find_or_create_archetype(&target);
        let b: usize = match found {
            Some(b) => b,
            None => {
                proof {
                    assert(!old(self)@.has_archetype(target@)) by {
                        if old(self)@.has_archetype(target@) {
                            let x = choose|x: int|
                                0 <= x < old(self)@.archetypes.len()
                                    && #[trigger] old(self)@.archetypes[x].components == target@;
                            assert(old(self).archetypes@[x].components@ == target@);
                        }
                    }
                }
                return Err(WorldError::CapacityExhausted);
            },
        };
        let ghost extended = *self;
        proof {
            assert(extended.entity_ok(entity));
            if extended.archetypes@.len() == old(self).archetypes@.len() {
                assert(old(self)@.archetypes[b as int].components == target@);
                assert(old(self)@.has_archetype(target@));
            }
        }
        if b == a {
            proof {
                assert forall|j: int| 0 <= j < bundle.ids@.len() implies home.contains(
                     #[trigger] bundle.ids@[j]) by {
                    bundle.lemma_entry(j);
                    assert(target@.contains(bundle.ids@[j]));
                }
            }
            self.write_bundle(entity, loc, bundle);
        } else {
            proof {
                assert forall|k: int|
                    0 <= k < target@.len() implies home.contains(#[trigger] target@[k])
                    || bundle@.contains_key(target@[k]) by {
                    assert(target@.contains(target@[k]));
                }
            }
            self.migrate(entity, loc, b, bundle);
        }
        proof {
            let components = old(self)@.with_bundle(entity, bundle@);
            assert(merged(
                extended.components_of(entity),
                target@,
                bundle@,
                old(self).global_system_counter,
            ) =~= components);
            Self::lemma_moved(old(self), &extended, self, entity, b, components);
        }
        Ok(())
    }

    /// Creates an entity without components.
    pub fn spawn(&mut self) -> (r: Result<Entity, WorldError>)
        requires
            old(self).wf(),
        ensures
            final(self).wf(),
            r matches Ok(e) ==> {
                &&& !old(self)@.contains(e)
                &&& final(self)@.entities == old(self)@.entities.insert(
                    e,
                    Map::<ComponentId, Stored>::empty(),
                )
                &&& final(self)@.locations == old(self)@.locations.insert(
                    e,
                    EntityLocation {
                        archetype_id: 0,
                        index: old(self)@.archetypes[0].entities.len() as usize,
                    },
                )
                &&& final(self)@.archetypes == old(self)@.archetypes.update(
                    0,
                    ArchetypeView {
                        entities: old(self)@.archetypes[0].entities.push(e),
                        ..old(self)@.archetypes[0]
                    },
                )
                &&& final(self)@.registry == old(self)@.registry
                &&& final(self)@.access_ids_issued == old(self)@.access_ids_issued
                &&& if old(self)@.free_indices > 0 {
                    &&& e.id < old(self)@.generations.len()
                    &&& e.generation == old(self)@.generations[e.id as int]
                    &&& final(self)@.generations == old(self)@.generations
                    &&& final(self)@.free_indices == old(self)@.free_indices - 1
                } else {
                    &&& e.id == old(self)@.generations.len()
                    &&& e.generation == 0
                    &&& final(self)@.generations == old(self)@.generations.push(0)
                    &&& final(self)@.free_indices == 0
                }
                &&& final(self)@.global_system_counter == old(self)@.global_system_counter
                &&& final(self)@.exclusive_system_counter == old(self)@.exclusive_system_counter
            },
            r matches Err(error) ==> error == WorldError::CapacityExhausted
                && final(self)@ == old(self)@,
            r.is_err() <==> old(self)@.exhausted(),
    {
        let index: usize = self.archetypes[0].len();
        let location = EntityLocation { archetype_id: 0, index };
        match self.entities.allocate(location) {
            None => {
                proof {
                    self.lemma_same_placement(old(self), None);
                }
                Err(WorldError::CapacityExhausted)
            },
            Some(e) => {
                let ghost mid = *self;
                proof {
                    assert forall|x: int| 0 <= x < self.archetypes@.len()
                        implies #[trigger] self.archetype_ok(
                        x,
                    ) by {
                        assert(old(self).archetype_ok(x));
                    }
                    assert forall|o: Entity|
                        self.entities@.contains_key(o) && Some(o) != Some(e)
                            implies #[trigger] self.entity_ok(
                        o,
                    ) by {
                        assert(old(self).entity_ok(o));
                    }
                    assert forall|x: int, r: int|
                        0 <= x < self.archetypes@.len()
                            && 0 <= r < self.archetypes@[x].entities@.len()
                            implies #[trigger] self.row_ok(x, r, Some(e)) by {
                        assert(old(self).row_ok(x, r, None));
                    }
                }
                let cells: Vec<Option<Stored>> = Vec::new();
                self.attach(e, 0, &cells);
                proof {
                    assert(self.components_of(e) =~= Map::<ComponentId, Stored>::empty());
                    assert forall|o: Entity| old(self).entities@.contains_key(o)
                        implies self.components_of(
                        o,
                    ) == old(self).components_of(o) by {
                        assert(mid.components_of(o) == old(self).components_of(o));
                    }
                    assert(self@.entities =~= old(self)@.entities.insert(
                        e,
                        Map::<ComponentId, Stored>::empty(),
                    ));
                    assert(self@.archetypes =~= old(self)@.archetypes.update(
                        0,
                        ArchetypeView {
                            entities: old(self)@.archetypes[0].entities.push(e),
                            ..old(self)@.archetypes[0]
                        },
                    ));
                }
                Ok(e)
            },
        }
    }

    /// Gives the entity one component; see [`World::insert_bundle`].
    pub fn insert(&mut self, entity: Entity, component_id: ComponentId, value: u64) -> (r: Result<
        (),
        WorldError,
    >)
        requires
            old(self).wf(),
        ensures
            final(self).wf(),
            r == old(self)@.insert_result(entity, map![component_id => value]),
            r.is_ok() ==> final(self)@ == old(self)@.moved(
                entity,
                old(self)@.bundle_target(entity, map![component_id => value]),
                old(self)@.with_bundle(entity, map![component_id => value]),
            ),
            r.is_err() ==> final(self)@ == old(self)@,
    {
        let bundle = Bundle::new().with(component_id, value);
        assert(bundle@ =~= map![component_id => value]);
        self.insert_bundle(entity, &bundle)
    }

    /// The cell that the live entity `e` has for a component type.
    fn read_cell(&self, e: Entity, loc: EntityLocation, c: ComponentId) -> (cell: Stored)
        requires
            self.wf(),
            self.entities@.contains_key(e),
            self.entities@[e] == loc,
            self.archetypes@[loc.archetype_id as int].components@.contains(c),
        ensures
            cell == self.components_of(e)[c],
    {
        let a: usize = loc.archetype_id;
        assert(self.entity_ok(e));
        assert(self.archetype_ok(a as int));
        let found = self.archetypes[a].index_of(c);
        let k: usize = found.unwrap();
        proof {
            lemma_position(self.archetypes@[a as int].components@, c, k as int);
            assert(self.archetypes@[a as int].components@[k as int] < self.components@.len());
        }
        match self.archetypes[a].storages[k] {
            StorageType::Table => self.archetypes[a].columns[k][loc.index],
            StorageType::SparseSet => {
                let cell = self.sparse_sets[c].get(e.id);
                cell.unwrap()
            },
        }
    }

    /// Takes one component from the entity, which moves to the archetype
    /// of its remaining component types. Does nothing if the entity does
    /// not hold the component.
    pub fn remove(&mut self, entity: Entity, component_id: ComponentId) -> (r: Result<
        Option<u64>,
        WorldError,
    >)
        requires
            old(self).wf(),
        ensures
            final(self).wf(),
            r == old(self)@.remove_result(entity, component_id),
            r matches Ok(Some(_)) ==> final(self)@ == old(self)@.moved(
                entity,
                sorted_members(old(self)@.entities[entity].dom().remove(component_id)),
                old(self)@.entities[entity].remove(component_id),
            ),
            !(r matches Ok(Some(_))) ==> final(self)@ == old(self)@,
    {
        let loc = match self.entities.get(entity) {
            Some(loc) => loc,
            None => {
                return Err(WorldError::NoSuchEntity);
            },
        };
        let a: usize = loc.archetype_id;
        proof {
            assert(self.entity_ok(entity));
            assert(self.archetype_ok(a as int));
        }
        if !self.archetypes[a].contains(component_id) {
            return Ok(None);
        }
        let ghost home = self.archetypes@[a as int].components@;
        let cell = self.read_cell(entity, loc, component_id);
        let mut target: Vec<ComponentId> = copy_ids(&self.archetypes[a].components);
        remove_sorted(&mut target, component_id);
        proof {
            assert forall|k: int| 0 <= k < target@.len() implies #[trigger] target@[k]
                < self.components@.len() by {
                let x = target@[k];
                assert(target@.contains(x));
                lemma_position_of_member(home, x);
                assert(home[position(home, x)] < self.components@.len());
            }
            lemma_sorted_members(target@, self@.entities[entity].dom().remove(component_id));
            assert(target@ != home) by {
                assert(home.contains(component_id));
                assert(!target@.contains(component_id));
            }
        }
        let found = self.find_or_create_archetype(&target);
        let b: usize = match found {
            Some(b) => b,
            None => {
                proof {
                    assert(!old(self)@.has_archetype(target@)) by {
                        if old(self)@.has_archetype(target@) {
                            let x = choose|x: int|
                                0 <= x < old(self)@.archetypes.len()
                                    && #[trigger] old(self)@.archetypes[x].components == target@;
                            assert(old(self).archetypes@[x].components@ == target@);
                        }
                    }
                }
                return Err(WorldError::CapacityExhausted);
            },
        };
        let ghost extended = *self;
        let kept = Bundle::new();
        proof {
            assert(extended.entity_ok(entity));
            if extended.archetypes@.len() == old(self).archetypes@.len() {
                assert(old(self)@.archetypes[b as int].components == target@);
                assert(old(self)@.has_archetype(target@));
            }
            assert forall|k: int| 0 <= k < target@.len() implies home.contains(
                 #[trigger] target@[k]) || kept@.contains_key(target@[k]) by {
                assert(target@.contains(target@[k]));
            }
            assert forall|i: int| 0 <= i < kept.ids@.len() implies #[trigger] kept.ids@[i]
                < self.components@.len() by {
                kept.lemma_entry(i);
            }
        }
        self.migrate(entity, loc, b, &kept);
        proof {
            let components = old(self)@.entities[entity].remove(component_id);
            assert(merged(
                extended.components_of(entity),
                target@,
                kept@,
                old(self).global_system_counter,
            ) =~= components);
            Self::lemma_moved(old(self), &extended, self, entity, b, components);
        }
        proof {
            assert forall|o: Entity| self.entities@.contains_key(o) && o.id == entity.id
                implies !self.archetypes@[(
            #[trigger] self.entities@[o]).archetype_id as int].components@.contains(component_id)
                by {
                self.entities.lemma_live_handles_never_alias(o, entity);
                assert(!target@.contains(component_id));
            }
            assert(old(self).archetypes@[a as int].components@[position(
                old(self).archetypes@[a as int].components@,
                component_id,
            )] < old(self).components@.len()) by {
                lemma_position_of_member(old(self).archetypes@[a as int].components@, component_id);
            }
        }
        self.forget_sparse(component_id, entity.id);
        Ok(Some(cell.value))
    }

    /// Forgets the cell that is kept outside the archetypes for a
    /// component type and an entity index, if the type is kept there.
    /// No live entity with that index holds a component of the type, so
    /// nothing that the store shows changes.
    fn forget_sparse(&mut self, c: ComponentId, id: u32)
        requires
            old(self).wf(),
            c < old(self).components@.len(),
            forall|o: Entity|
                old(self).entities@.contains_key(o) && o.id == id
                    ==> !old(self).archetypes@[(#[trigger] old(self).entities@[o]).archetype_id as int].components@.contains(
                    c,
                ),
        ensures
            final(self).wf(),
            final(self)@ == old(self)@,
            final(self).entities == old(self).entities,
            final(self).archetypes == old(self).archetypes,
            final(self).components == old(self).components,
            final(self).sparse_sets@.len() == old(self).sparse_sets@.len(),
            forall|d: int, i: u32|
                0 <= d < old(self).sparse_sets@.len()
                    ==> #[trigger] final(self).sparse_sets@[d].cell(
                    i,
                ) == (if d == c && i == id && old(self).components@[c as int].storage_type
                    == StorageType::SparseSet {
                    None
                } else {
                    old(self).sparse_sets@[d].cell(i)
                }),
    {
        let info = self.components.get_info(c);
        match info {
            Some(descriptor) => {
                match descriptor.storage_type {
                    StorageType::SparseSet => {
                        let _ = self.sparse_sets[c].remove(id);
                    },
                    StorageType::Table => {},
                }
            },
            None => {},
        }
        proof {
            assert forall|x: int| 0 <= x < self.archetypes@.len()
                implies #[trigger] self.archetype_ok(
                x,
            ) by {
                assert(old(self).archetype_ok(x));
            }
            assert forall|o: Entity| self.entities@.contains_key(o)
                implies #[trigger] self.entity_ok(
                o,
            ) by {
                assert(old(self).entity_ok(o));
                let at = old(self).entities@[o];
                assert(old(self).archetype_ok(at.archetype_id as int));
                let home = self.archetypes@[at.archetype_id as int];
                assert forall|j: int|
                    0 <= j < home.components@.len() && home.storages@[j]
                        != StorageType::Table implies self.sparse_sets@[(
                #[trigger] home.components@[j]) as int].cell(o.id).is_some() by {
                    let d = home.components@[j];
                    assert(home.components@.contains(d));
                    assert(old(self).sparse_sets@[d as int].cell(o.id).is_some());
                }
            }
            assert forall|x: int, r: int|
                0 <= x < self.archetypes@.len() && 0 <= r < self.archetypes@[x].entities@.len()
                    implies #[trigger] self.row_ok(x, r, None) by {
                assert(old(self).row_ok(x, r, None));
            }
            assert forall|o: Entity| old(self).entities@.contains_key(o)
                implies self.components_of(o)
                == old(self).components_of(o) by {
                assert(old(self).entity_ok(o));
                let at = old(self).entities@[o];
                assert(old(self).archetype_ok(at.archetype_id as int));
                let home = self.archetypes@[at.archetype_id as int];
                assert forall|d: ComponentId| home.components@.contains(d)
                    implies self.sparse_sets@[d as int].cell(
                    o.id,
                ) == old(self).sparse_sets@[d as int].cell(o.id) by {
                    lemma_position_of_member(home.components@, d);
                    assert(home.components@[position(home.components@, d)]
                        < self.components@.len());
                }
                assert(self.components_of(o) =~= old(self).components_of(o));
            }
            assert(self@.entities =~= old(self)@.entities);
            assert(self@.archetypes =~= old(self)@.archetypes);
        }
    }

    /// Removes the entity and its components. True iff the entity was live.
    pub fn despawn(&mut self, entity: Entity) -> (r: bool)
        requires
            old(self).wf(),
        ensures
            final(self).wf(),
            r == old(self)@.contains(entity),
            r ==> final(self)@ == old(self)@.despawned(entity),
            !r ==> final(self)@ == old(self)@,
    {
        let loc = match self.entities.get(entity) {
            Some(loc) => loc,
            None => {
                return false;
            },
        };
        proof {
            assert(self.entity_ok(entity));
        }
        let held: Vec<ComponentId> = copy_ids(&self.archetypes[loc.archetype_id].components);
        proof {
            assert(self.archetype_ok(loc.archetype_id as int));
        }
        let _ = self.detach(entity, loc);
        let ghost detached = *self;
        let _ = self.entities.free(entity);
        proof {
            assert forall|x: int| 0 <= x < self.archetypes@.len()
                implies #[trigger] self.archetype_ok(
                x,
            ) by {
                assert(detached.archetype_ok(x));
            }
            assert forall|o: Entity| self.entities@.contains_key(o)
                implies #[trigger] self.entity_ok(
                o,
            ) by {
                assert(detached.entity_ok(o));
            }
            assert forall|x: int, r: int|
                0 <= x < self.archetypes@.len() && 0 <= r < self.archetypes@[x].entities@.len()
                    implies #[trigger] self.row_ok(x, r, None) by {
                assert(detached.row_ok(x, r, Some(entity)));
            }
            let want = old(self)@.despawned(entity);
            assert(self@.archetypes =~= want.archetypes) by {
                assert forall|x: int| 0 <= x < self@.archetypes.len() implies self@.archetypes[x]
                    == want.archetypes[x] by {
                    assert(self.archetypes@[x].components@ == old(self).archetypes@[x].components@);
                }
            }
            assert(self@.locations =~= want.locations);
            assert(self@.entities =~= want.entities) by {
                assert forall|o: Entity| self.entities@.contains_key(o)
                    implies self.components_of(o)
                    == old(self).components_of(o) by {
                    assert(detached.components_of(o) == old(self).components_of(o));
                }
            }
            assert forall|o: Entity| self.entities@.contains_key(o) implies o.id != entity.id by {
                if o.id == entity.id {
                    old(self).entities.lemma_live_handles_never_alias(o, entity);
                }
            }
        }
        let ghost gone = self@;
        let mut k: usize = 0;
        while k < held.len()
            invariant
                k <= held@.len(),
                self.wf(),
                self@ == gone,
                self.components@.len() == old(self).components@.len(),
                forall|j: int| 0 <= j < held@.len()
                    ==> #[trigger] held@[j] < old(self).components@.len(),
                forall|o: Entity| self.entities@.contains_key(o) ==> o.id != entity.id,
            decreases held@.len() - k,
        {
            self.forget_sparse(held[k], entity.id);
            k += 1;
        }
        true
    }

    /// True iff the handle names a live entity.
    pub fn contains(&self, entity: Entity) -> (r: bool)
        ensures
            r == self@.contains(entity),
    {
        self.entities.contains(entity)
    }

    /// The archetype and row of a live entity.
    pub fn location(&self, entity: Entity) -> (r: Option<EntityLocation>)
        ensures
            r == (if self@.contains(entity) {
                Some(self@.locations[entity])
            } else {
                None
            }),
    {
        self.entities.get(entity)
    }

    /// The cell that an entity holds for a component type: its value and
    /// its counters.
    pub fn get_stored(&self, entity: Entity, component_id: ComponentId) -> (r: Option<Stored>)
        requires
            self.wf(),
        ensures
            r == (if self@.has(entity, component_id) {
                Some(self@.entities[entity][component_id])
            } else {
                None
            }),
    {
        match self.entities.get(entity) {
            None => None,
            Some(loc) => {
                proof {
                    assert(self.entity_ok(entity));
                }
                if self.archetypes[loc.archetype_id].contains(component_id) {
                    Some(self.read_cell(entity, loc, component_id))
                } else {
                    None
                }
            },
        }
    }

    /// The value that an entity holds for a component type.
    pub fn get(&self, entity: Entity, component_id: ComponentId) -> (r: Option<u64>)
        requires
            self.wf(),
        ensures
            r == (if self@.has(entity, component_id) {
                Some(self@.entities[entity][component_id].value)
            } else {
                None
            }),
    {
        match self.get_stored(entity, component_id) {
            Some(cell) => Some(cell.value),
            None => None,
        }
    }

    /// `after` is `before` but for the cell that the entity `e`, which
    /// stands at `loc`, has for the component type at place `k` of its
    /// archetype: that cell is `cell`.
    pub open(crate) spec fn cell_written(
        before: &World,
        after: &World,
        e: Entity,
        loc: EntityLocation,
        k: int,
        cell: Stored,
    ) -> bool {
        let a = loc.archetype_id as int;
        let c = before.archetypes@[a].components@[k];
        &&& after.entities == before.entities
        &&& after.components == before.components
        &&& after.archetype_component_count == before.archetype_component_count
        &&& after.global_system_counter == before.global_system_counter
        &&& after.exclusive_system_counter == before.exclusive_system_counter
        &&& after.archetypes@.len() == before.archetypes@.len()
        &&& after.sparse_sets@.len() == before.sparse_sets@.len()
        &&& forall|x: int|
            0 <= x < before.archetypes@.len() && x != a ==> #[trigger] after.archetypes@[x]
                == before.archetypes@[x]
        &&& after.archetypes@[a].id == before.archetypes@[a].id
        &&& after.archetypes@[a].components == before.archetypes@[a].components
        &&& after.archetypes@[a].storages == before.archetypes@[a].storages
        &&& after.archetypes@[a].archetype_component_ids
            == before.archetypes@[a].archetype_component_ids
        &&& after.archetypes@[a].entities == before.archetypes@[a].entities
        &&& after.archetypes@[a].columns@.len() == before.archetypes@[a].columns@.len()
        &&& if before.archetypes@[a].storages@[k] == StorageType::Table {
            &&& after.sparse_sets == before.sparse_sets
            &&& forall|j: int|
                0 <= j < before.archetypes@[a].columns@.len() && j != k
                    ==> #[trigger] after.archetypes@[a].columns@[j]
                    == before.archetypes@[a].columns@[j]
            &&& after.archetypes@[a].columns@[k]@ == before.archetypes@[a].columns@[k]@.update(
                loc.index as int,
                cell,
            )
        } else {
            &&& after.archetypes@[a].columns == before.archetypes@[a].columns
            &&& forall|d: int|
                0 <= d < before.sparse_sets@.len() && d != c ==> #[trigger] after.sparse_sets@[d]
                    == before.sparse_sets@[d]
            &&& after.sparse_sets@[c as int].cells@ == before.sparse_sets@[c as int].cells@.update(
                e.id as int,
                Some(cell),
            )
        }
    }

    /// Overwriting one cell of a live entity keeps the store well formed
    /// and changes nothing but that cell.
    proof fn lemma_cell_written(
        before: &World,
        after: &World,
        e: Entity,
        loc: EntityLocation,
        k: int,
        cell: Stored,
    )
        requires
            before.wf(),
            before.entities@.contains_key(e),
            before.entities@[e] == loc,
            0 <= k < before.archetypes@[loc.archetype_id as int].components@.len(),
            Self::cell_written(before, after, e, loc, k, cell),
        ensures
            after.wf(),
            after@ == before@.with_cell(
                e,
                before.archetypes@[loc.archetype_id as int].components@[k],
                cell,
            ),
    {
        let a = loc.archetype_id as int;
        let c = before.archetypes@[a].components@[k];
        assert(before.entity_ok(e));
        assert(before.archetype_ok(a));
        lemma_position(before.archetypes@[a].components@, c, k);
        assert(before.archetypes@[a].components@[k] < before.components@.len());
        assert forall|x: int| 0 <= x < after.archetypes@.len()
            implies #[trigger] after.archetype_ok(
            x,
        ) by {
            assert(before.archetype_ok(x));
        }
        assert forall|o: Entity| after.entities@.contains_key(o) implies #[trigger] after.entity_ok(
            o,
        ) by {
            assert(before.entity_ok(o));
            let at = before.entities@[o];
            assert(before.archetype_ok(at.archetype_id as int));
            let home = after.archetypes@[at.archetype_id as int];
            assert forall|j: int|
                0 <= j < home.components@.len() && home.storages@[j]
                    != StorageType::Table implies after.sparse_sets@[(
            #[trigger] home.components@[j]) as int].cell(o.id).is_some() by {
                let d = before.archetypes@[at.archetype_id as int].components@[j];
                assert(before.sparse_sets@[d as int].cell(o.id).is_some());
            }
        }
        assert forall|x: int, r: int|
            0 <= x < after.archetypes@.len() && 0 <= r < after.archetypes@[x].entities@.len()
                implies #[trigger] after.row_ok(x, r, None) by {
            assert(before.row_ok(x, r, None));
        }
        assert forall|o: Entity| o != e && before.entities@.contains_key(o)
            implies after.components_of(
            o,
        ) == before.components_of(o) by {
            assert(before.entity_ok(o));
            let at = before.entities@[o];
            assert(before.archetype_ok(at.archetype_id as int));
            assert(before.row_ok(at.archetype_id as int, at.index as int, None));
            if o.id == e.id {
                before.entities.lemma_live_handles_never_alias(o, e);
            }
            assert(after.archetypes@[at.archetype_id as int].row_cells(at.index as int)
                =~= before.archetypes@[at.archetype_id as int].row_cells(at.index as int));
            assert(after.components_of(o) =~= before.components_of(o));
        }
        let arch = before.archetypes@[a];
        assert forall|d: ComponentId| arch.components@.contains(d)
            implies #[trigger] after.components_of(
            e,
        )[d] == before.components_of(e).insert(c, cell)[d] by {
            lemma_position_of_member(arch.components@, d);
            let j = position(arch.components@, d);
            assert(arch.components@[j] < before.components@.len());
            if d != c {
                assert(j != k);
            }
        }
        assert(after.components_of(e) =~= before.components_of(e).insert(c, cell));
        assert(after@.entities =~= before@.entities.insert(e, before@.entities[e].insert(c, cell)));
        assert(after@.archetypes =~= before@.archetypes);
    }

    /// Mutable access to the cell that the live entity `e` has for the
    /// component type at place `k` of its archetype.
    fn cell_mut(
        &mut self,
        e: Entity,
        loc: EntityLocation,
        k: usize,
        system_counter: u32,
        global_system_counter: u32,
    ) -> (r: Option<Mut<'_>>)
        requires
            old(self).wf(),
            old(self).entities@.contains_key(e),
            old(self).entities@[e] == loc,
            k < old(self).archetypes@[loc.archetype_id as int].components@.len(),
        ensures
            r matches Some(m) && m@
                == old(self).components_of(e)[old(self).archetypes@[loc.archetype_id as int].components@[k as int]] && m.system_counter
                == system_counter && m.global_system_counter == global_system_counter
                && Self::cell_written(
                old(self),
                final(self),
                e,
                loc,
                k as int,
                Stored { value: *final(m.value), counters: *final(m.component_counters) },
            ),
    {
        let a: usize = loc.archetype_id;
        proof {
            assert(old(self).entity_ok(e));
            assert(old(self).archetype_ok(a as int));
            lemma_position(
                old(self).archetypes@[a as int].components@,
                old(self).archetypes@[a as int].components@[k as int],
                k as int,
            );
            assert(old(self).archetypes@[a as int].components@[k as int]
                < old(self).components@.len());
        }
        match self.archetypes[a].storages[k] {
            StorageType::Table => {
                let cell = &mut self.archetypes[a].columns[k][loc.index];
                Some(
                    Mut {
                        value: &mut cell.value,
                        component_counters: &mut cell.counters,
                        system_counter,
                        global_system_counter,
                    },
                )
            },
            StorageType::SparseSet => {
                let c: ComponentId = self.archetypes[a].components[k];
                let index: usize = e.id as usize;
                match &mut self.sparse_sets[c].cells[index] {
                    Some(cell) => Some(
                        Mut {
                            value: &mut cell.value,
                            component_counters: &mut cell.counters,
                            system_counter,
                            global_system_counter,
                        },
                    ),
                    None => None,
                }
            },
        }
    }

    /// Mutable access to one component of an entity, on behalf of a
    /// system that last ran at `system_counter` and runs at
    /// `global_system_counter`. Nothing is recorded until the value is
    /// taken for writing.
    pub fn get_mut_manual(
        &mut self,
        entity: Entity,
        component_id: ComponentId,
        system_counter: u32,
        global_system_counter: u32,
    ) -> (r: Option<Mut<'_>>)
        requires
            old(self).wf(),
        ensures
            r.is_some() <==> old(self)@.has(entity, component_id),
            r.is_none() ==> final(self).wf() && final(self)@ == old(self)@,
            r matches Some(m) ==> {
                &&& m@ == old(self)@.entities[entity][component_id]
                &&& m.system_counter == system_counter
                &&& m.global_system_counter == global_system_counter
                &&& final(self).wf()
                &&& final(self)@ == old(self)@.with_cell(
                    entity,
                    component_id,
                    Stored { value: *final(m.value), counters: *final(m.component_counters) },
                )
            },
    {
        let loc = match self.entities.get(entity) {
            Some(loc) => loc,
            None => {
                return None;
            },
        };
        proof {
            assert(self.entity_ok(entity));
        }
        let k: usize = match self.archetypes[loc.archetype_id].index_of(component_id) {
            Some(k) => k,
            None => {
                return None;
            },
        };
        proof {
            assert forall|after: World, cell: Stored| #[trigger]
                Self::cell_written(old(self), &after, entity, loc, k as int, cell)
                    implies after.wf()
                && after@ == old(self)@.with_cell(entity, component_id, cell) by {
                Self::lemma_cell_written(old(self), &after, entity, loc, k as int, cell);
            }
        }
        self.cell_mut(entity, loc, k, system_counter, global_system_counter)
    }

    /// Mutable access to one component of an entity, for code that has
    /// the whole store to itself.
    pub fn get_mut(&mut self, entity: Entity, component_id: ComponentId) -> (r: Option<Mut<'_>>)
        requires
            old(self).wf(),
        ensures
            r.is_some() <==> old(self)@.has(entity, component_id),
            r.is_none() ==> final(self).wf() && final(self)@ == old(self)@,
            r matches Some(m) ==> {
                &&& m@ == old(self)@.entities[entity][component_id]
                &&& m.system_counter == old(self)@.exclusive_system_counter
                &&& m.global_system_counter == old(self)@.global_system_counter
                &&& final(self).wf()
                &&& final(self)@ == old(self)@.with_cell(
                    entity,
                    component_id,
                    Stored { value: *final(m.value), counters: *final(m.component_counters) },
                )
            },
    {
        let system_counter: u32 = self.exclusive_system_counter;
        let global_system_counter: u32 = self.global_system_counter;
        self.get_mut_manual(entity, component_id, system_counter, global_system_counter)
    }

    /// The identifier that access tracking uses for a component of a
    /// live entity.
    pub fn archetype_component_id(&self, entity: Entity, component_id: ComponentId) -> (r: Option<
        ArchetypeComponentId,
    >)
        requires
            self.wf(),
        ensures
            r.is_some() <==> self@.has(entity, component_id),
            r matches Some(id) ==> id == self@.access_id(entity, component_id),
    {
        match self.entities.get(entity) {
            None => None,
            Some(loc) => {
                proof {
                    assert(self.entity_ok(entity));
                    assert(self.archetype_ok(loc.archetype_id as int));
                }
                match self.archetypes[loc.archetype_id].index_of(component_id) {
                    None => None,
                    Some(k) => {
                        proof {
                            lemma_position(
                                self.archetypes@[loc.archetype_id as int].components@,
                                component_id,
                                k as int,
                            );
                        }
                        Some(self.archetypes[loc.archetype_id].archetype_component_ids[k])
                    },
                }
            },
        }
    }

    /// The store is as well formed after a component type was registered
    /// as before, and shows the same but for the registry.
    proof fn lemma_registered(before: &World, after: &World, descriptor: ComponentDescriptor)
        requires
            before.wf(),
            after.components.wf(),
            after.components@ == before.components@.push(descriptor),
            after.sparse_sets@.len() == before.sparse_sets@.len() + 1,
            forall|c: int|
                0 <= c < before.sparse_sets@.len() ==> #[trigger] after.sparse_sets@[c]
                    == before.sparse_sets@[c],
            after.entities == before.entities,
            after.archetypes == before.archetypes,
            after.archetype_component_count == before.archetype_component_count,
            after.global_system_counter == before.global_system_counter,
            after.exclusive_system_counter == before.exclusive_system_counter,
        ensures
            after.wf(),
            after@ == (WorldView { registry: before@.registry.push(descriptor), ..before@ }),
    {
        assert forall|x: int| 0 <= x < after.archetypes@.len()
            implies #[trigger] after.archetype_ok(
            x,
        ) by {
            assert(before.archetype_ok(x));
        }
        assert forall|o: Entity| after.entities@.contains_key(o) implies #[trigger] after.entity_ok(
            o,
        ) by {
            assert(before.entity_ok(o));
            let at = before.entities@[o];
            assert(before.archetype_ok(at.archetype_id as int));
            let home = after.archetypes@[at.archetype_id as int];
            assert forall|j: int|
                0 <= j < home.components@.len() && home.storages@[j]
                    != StorageType::Table implies after.sparse_sets@[(
            #[trigger] home.components@[j]) as int].cell(o.id).is_some() by {
                let d = home.components@[j];
                assert(before.sparse_sets@[d as int].cell(o.id).is_some());
            }
        }
        assert forall|x: int, r: int|
            0 <= x < after.archetypes@.len() && 0 <= r < after.archetypes@[x].entities@.len()
                implies #[trigger] after.row_ok(x, r, None) by {
            assert(before.row_ok(x, r, None));
        }
        assert forall|o: Entity| before.entities@.contains_key(o) implies after.components_of(o)
            == before.components_of(o) by {
            assert(before.entity_ok(o));
            let at = before.entities@[o];
            assert(before.archetype_ok(at.archetype_id as int));
            let home = before.archetypes@[at.archetype_id as int];
            assert forall|d: ComponentId| home.components@.contains(d)
                implies after.sparse_sets@[d as int]
                == before.sparse_sets@[d as int] by {
                lemma_position_of_member(home.components@, d);
                assert(home.components@[position(home.components@, d)] < before.components@.len());
            }
            assert(after.components_of(o) =~= before.components_of(o));
        }
        assert(after@.entities =~= before@.entities);
        assert(after@.archetypes =~= before@.archetypes);
    }

    /// Registers a component type with the storage strategy given, unless
    /// its type key is registered already.
    pub fn register_component(&mut self, descriptor: ComponentDescriptor) -> (r: Result<
        ComponentId,
        ComponentsError,
    >)
        requires
            old(self).wf(),
        ensures
            final(self).wf(),
            match id_of(old(self)@.registry, descriptor.type_id) {
                Some(existing_id) => r == Err::<ComponentId, ComponentsError>(
                    ComponentsError::ComponentAlreadyExists {
                        type_id: descriptor.type_id,
                        existing_id,
                    },
                ) && final(self)@ == old(self)@,
                None => r == Ok::<ComponentId, ComponentsError>(
                    old(self)@.registry.len() as usize,
                ) && final(self)@ == (WorldView {
                    registry: old(self)@.registry.push(descriptor),
                    ..old(self)@
                }),
            },
    {
        match self.components.get_id(descriptor.type_id) {
            Some(existing_id) => Err(
                ComponentsError::ComponentAlreadyExists { type_id: descriptor.type_id,
                    existing_id },
            ),
            None => {
                let r = self.components.add(descriptor);
                self.sparse_sets.push(SparseArray::new());
                proof {
                    Self::lemma_registered(old(self), self, descriptor);
                }
                r
            },
        }
    }

    /// The identifier of a component type, which is registered with table
    /// storage if it was not registered before.
    pub fn init_component(&mut self, type_id: u64) -> (id: ComponentId)
        requires
            old(self).wf(),
        ensures
            final(self).wf(),
            id < final(self)@.registry.len(),
            final(self)@.registry[id as int].type_id == type_id,
            match id_of(old(self)@.registry, type_id) {
                Some(existing_id) => id == existing_id && final(self)@ == old(self)@,
                None => id == old(self)@.registry.len() && final(self)@ == (WorldView {
                    registry: old(self)@.registry.push(
                        ComponentDescriptor { type_id, storage_type: StorageType::Table },
                    ),
                    ..old(self)@
                }),
            },
    {
        match self.components.get_id(type_id) {
            Some(id) => id,
            None => {
                let descriptor = ComponentDescriptor { type_id, storage_type: StorageType::Table };
                let id = self.components.get_or_insert_id(type_id);
                self.sparse_sets.push(SparseArray::new());
                proof {
                    Self::lemma_registered(old(self), self, descriptor);
                }
                id
            },
        }
    }

    /// The registry of component types.
    pub fn components(&self) -> (components: &Components)
        requires
            self.wf(),
        ensures
            components@ == self@.registry,
            components.wf(),
    {
        &self.components
    }

    /// The number of archetypes.
    pub fn archetype_count(&self) -> (n: usize)
        ensures
            n == self@.archetypes.len(),
    {
        self.archetypes.len()
    }

    /// The archetype with the identifier given.
    pub fn archetype(&self, id: ArchetypeId) -> (archetype: &Archetype)
        requires
            self.wf(),
            id < self@.archetypes.len(),
        ensures
            archetype.spec_id() == id,
            archetype.component_ids() == self@.archetypes[id as int].components,
            archetype.component_access_ids() == self@.archetypes[id as int].access_ids,
            archetype.rows() == self@.archetypes[id as int].entities,
    {
        proof {
            assert(self.archetype_ok(id as int));
        }
        &self.archetypes[id]
    }

    /// The current value of the global counter.
    pub fn global_system_counter(&self) -> (counter: u32)
        ensures
            counter == self@.global_system_counter,
    {
        self.global_system_counter
    }

    /// Advances the global counter by one, wrapping around, and returns
    /// the value that it had.
    pub fn increment_global_system_counter(&mut self) -> (counter: u32)
        requires
            old(self).wf(),
        ensures
            final(self).wf(),
            counter == old(self)@.global_system_counter,
            final(self)@ == (WorldView {
                global_system_counter: advance(old(self)@.global_system_counter, 1),
                ..old(self)@
            }),
    {
        let counter: u32 = self.global_system_counter;
        self.global_system_counter = counter.wrapping_add(1);
        proof {
            self.lemma_same_placement(old(self), None);
            assert(counter.wrapping_add(1) == advance(counter, 1)) by {
                if counter == u32::MAX {
                    assert((counter + 1) % 0x1_0000_0000 == 0) by (nonlinear_arith)
                        requires
                            counter + 1 == 0x1_0000_0000,
                    ;
                } else {
                    assert((counter + 1) % 0x1_0000_0000 == counter + 1) by (nonlinear_arith)
                        requires
                            0 <= counter + 1 < 0x1_0000_0000,
                    ;
                }
            }
        }
        counter
    }

    /// The counter that stands for the system that has the whole store to
    /// itself.
    pub fn exclusive_system_counter(&self) -> (counter: u32)
        ensures
            counter == self@.exclusive_system_counter,
    {
        self.exclusive_system_counter
    }

    /// Sets the counter that stands for the system that has the whole
    /// store to itself.
    pub fn set_exclusive_system_counter(&mut self, counter: u32)
        requires
            old(self).wf(),
        ensures
            final(self).wf(),
            final(self)@ == (WorldView { exclusive_system_counter: counter, ..old(self)@ }),
    {
        self.exclusive_system_counter = counter;
        proof {
            self.lemma_same_placement(old(self), None);
        }
    }

    /// `after` is `before` with the counters of every cell rebased
    /// against `global`.
    pub open(crate) spec fn cells_rebased(before: &World, after: &World, global: u32) -> bool {
        &&& after.entities == before.entities
        &&& after.components == before.components
        &&& after.archetype_component_count == before.archetype_component_count
        &&& after.global_system_counter == before.global_system_counter
        &&& after.exclusive_system_counter == before.exclusive_system_counter
        &&& after.archetypes@.len() == before.archetypes@.len()
        &&& after.sparse_sets@.len() == before.sparse_sets@.len()
        &&& forall|a: int|
            0 <= a < before.archetypes@.len() ==> {
                &&& (#[trigger] after.archetypes@[a]).id == before.archetypes@[a].id
                &&& after.archetypes@[a].components@ == before.archetypes@[a].components@
                &&& after.archetypes@[a].storages@ == before.archetypes@[a].storages@
                &&& after.archetypes@[a].archetype_component_ids@
                    == before.archetypes@[a].archetype_component_ids@
                &&& after.archetypes@[a].entities@ == before.archetypes@[a].entities@
                &&& after.archetypes@[a].columns@.len() == before.archetypes@[a].columns@.len()
            }
        &&& forall|a: int, k: int|
            0 <= a < before.archetypes@.len() && 0 <= k < before.archetypes@[a].columns@.len() ==> (
            #[trigger] after.archetypes@[a].columns@[k])@.len()
                == before.archetypes@[a].columns@[k]@.len()
        &&& forall|a: int, k: int, r: int|
            0 <= a < before.archetypes@.len() && 0 <= k < before.archetypes@[a].columns@.len() && 0
                <= r < before.archetypes@[a].columns@[k]@.len()
                ==> #[trigger] after.archetypes@[a].columns@[k]@[r]
                == before.archetypes@[a].columns@[k]@[r].rebased(global)
        &&& forall|c: int, i: u32|
            0 <= c < before.sparse_sets@.len() ==> #[trigger] after.sparse_sets@[c].cell(i) == (
            match before.sparse_sets@[c].cell(i) {
                Some(cell) => Some(cell.rebased(global)),
                None => None,
            })
    }

    /// Rebasing the counters of every cell keeps the store well formed
    /// and changes nothing but the counters.
    proof fn lemma_cells_rebased(before: &World, after: &World)
        requires
            before.wf(),
            Self::cells_rebased(before, after, before.global_system_counter),
        ensures
            after.wf(),
            after@ == before@.rebased(),
    {
        let global = before.global_system_counter;
        assert forall|x: int| 0 <= x < after.archetypes@.len()
            implies #[trigger] after.archetype_ok(
            x,
        ) by {
            assert(before.archetype_ok(x));
            assert forall|k: int|
                0 <= k < after.archetypes@[x].components@.len() implies (
            #[trigger] after.archetypes@[x].columns@[k])@.len()
                == (if after.archetypes@[x].storages@[k]
                == StorageType::Table {
                after.archetypes@[x].entities@.len()
            } else {
                0
            }) by {
                assert(before.archetypes@[x].columns@[k]@.len()
                    == after.archetypes@[x].columns@[k]@.len());
            }
        }
        assert forall|a: int, b: int| 0 <= a < b < after.archetypes@.len() implies (
        #[trigger] after.archetypes@[a]).components@
            != (#[trigger] after.archetypes@[b]).components@ by {
            assert(before.archetypes@[a].components@ != before.archetypes@[b].components@);
        }
        assert forall|a: int, k: int, b: int, j: int|
            0 <= a < after.archetypes@.len() && 0 <= k < after.archetypes@[a].components@.len() && 0
                <= b < after.archetypes@.len() && 0 <= j < after.archetypes@[b].components@.len()
                && #[trigger] after.archetypes@[a].archetype_component_ids@[k]
                == #[trigger] after.archetypes@[b].archetype_component_ids@[j] implies a == b && k
            == j by {
            assert(before.archetypes@[a].archetype_component_ids@[k]
                == before.archetypes@[b].archetype_component_ids@[j]);
        }
        assert forall|o: Entity| after.entities@.contains_key(o) implies #[trigger] after.entity_ok(
            o,
        ) by {
            assert(before.entity_ok(o));
            let at = before.entities@[o];
            assert(before.archetype_ok(at.archetype_id as int));
            let home = after.archetypes@[at.archetype_id as int];
            assert forall|j: int|
                0 <= j < home.components@.len() && home.storages@[j]
                    != StorageType::Table implies after.sparse_sets@[(
            #[trigger] home.components@[j]) as int].cell(o.id).is_some() by {
                let d = before.archetypes@[at.archetype_id as int].components@[j];
                assert(before.sparse_sets@[d as int].cell(o.id).is_some());
            }
        }
        assert forall|x: int, r: int|
            0 <= x < after.archetypes@.len() && 0 <= r < after.archetypes@[x].entities@.len()
                implies #[trigger] after.row_ok(x, r, None) by {
            assert(before.row_ok(x, r, None));
        }
        assert forall|o: Entity| after.entities@.contains_key(o) implies after.components_of(o)
            == before@.rebased().entities[o] by {
            assert(before.entity_ok(o));
            let at = before.entities@[o];
            assert(before.archetype_ok(at.archetype_id as int));
            let home = before.archetypes@[at.archetype_id as int];
            assert forall|d: ComponentId| home.components@.contains(d)
                implies #[trigger] after.components_of(
                o,
            )[d] == before.components_of(o)[d].rebased(global) by {
                lemma_position_of_member(home.components@, d);
                let j = position(home.components@, d);
                assert(home.components@[j] < before.components@.len());
                assert(home.columns@[j]@.len() == (if home.storages@[j] == StorageType::Table {
                    home.entities@.len()
                } else {
                    0
                }));
            }
            assert(after.components_of(o) =~= before@.rebased().entities[o]);
        }
        assert(after@.entities =~= before@.rebased().entities);
        assert(after@.archetypes =~= before@.archetypes);
    }

    /// Rebases the counters of every component against the global
    /// counter: a counter that has fallen further behind than half the
    /// range of the global counter is moved up to that distance, so that
    /// it keeps comparing as old.
    pub fn check_component_counters(&mut self)
        requires
            old(self).wf(),
        ensures
            final(self).wf(),
            final(self)@ == old(self)@.rebased(),
    {
        let global: u32 = self.global_system_counter;
        let mut a: usize = 0;
        while a < self.archetypes.len()
            invariant
                a <= self.archetypes@.len(),
                old(self).wf(),
                self.entities == old(self).entities,
                self.components == old(self).components,
                self.sparse_sets == old(self).sparse_sets,
                self.archetype_component_count == old(self).archetype_component_count,
                self.global_system_counter == old(self).global_system_counter,
                self.exclusive_system_counter == old(self).exclusive_system_counter,
                self.archetypes@.len() == old(self).archetypes@.len(),
                forall|x: int| a <= x < self.archetypes@.len()
                    ==> #[trigger] self.archetypes@[x] == old(self).archetypes@[x],
                forall|x: int|
                    0 <= x < a ==> {
                        &&& (#[trigger] self.archetypes@[x]).id == old(self).archetypes@[x].id
                        &&& self.archetypes@[x].components@ == old(self).archetypes@[x].components@
                        &&& self.archetypes@[x].storages@ == old(self).archetypes@[x].storages@
                        &&& self.archetypes@[x].archetype_component_ids@
                            == old(self).archetypes@[x].archetype_component_ids@
                        &&& self.archetypes@[x].entities@ == old(self).archetypes@[x].entities@
                        &&& self.archetypes@[x].columns@.len()
                            == old(self).archetypes@[x].columns@.len()
                    },
                forall|x: int, k: int|
                    0 <= x < a && 0 <= k < old(self).archetypes@[x].columns@.len() ==> (
                    #[trigger] self.archetypes@[x].columns@[k])@.len()
                        == old(self).archetypes@[x].columns@[k]@.len(),
                forall|x: int, k: int, r: int|
                    0 <= x < a && 0 <= k < old(self).archetypes@[x].columns@.len()
                        && 0 <= r < old(self).archetypes@[x].columns@[k]@.len()
                        ==> #[trigger] self.archetypes@[x].columns@[k]@[r]
                            == old(self).archetypes@[x].columns@[k]@[r].rebased(global),
            decreases self.archetypes@.len() - a,
        {
            assert(old(self).archetype_ok(a as int));
            self.archetypes[a].check_counters(global);
            a += 1;
        }
        let ghost columns_done = *self;
        let mut c: usize = 0;
        while c < self.sparse_sets.len()
            invariant
                c <= self.sparse_sets@.len(),
                self.entities == columns_done.entities,
                self.components == columns_done.components,
                self.archetypes == columns_done.archetypes,
                self.archetype_component_count == columns_done.archetype_component_count,
                self.global_system_counter == columns_done.global_system_counter,
                self.exclusive_system_counter == columns_done.exclusive_system_counter,
                self.sparse_sets@.len() == old(self).sparse_sets@.len(),
                forall|x: int| c <= x < self.sparse_sets@.len()
                    ==> #[trigger] self.sparse_sets@[x] == old(self).sparse_sets@[x],
                forall|x: int, i: u32|
                    0 <= x < c ==> #[trigger] self.sparse_sets@[x].cell(i)
                        == (match old(self).sparse_sets@[x].cell(i) {
                        Some(cell) => Some(cell.rebased(global)),
                        None => None,
                    }),
            decreases self.sparse_sets@.len() - c,
        {
            self.sparse_sets[c].check_counters(global);
            c += 1;
        }
        proof {
            Self::lemma_cells_rebased(old(self), self);
        }
    }

    /// The entity in a row of an archetype.
    pub fn entity_at(&self, archetype_id: ArchetypeId, row: usize) -> (entity: Entity)
        requires
            self.wf(),
            archetype_id < self@.archetypes.len(),
            row < self@.archetypes[archetype_id as int].entities.len(),
        ensures
            entity == self@.archetypes[archetype_id as int].entities[row as int],
            self@.contains(entity),
    {
        proof {
            assert(self.row_ok(archetype_id as int, row as int, None));
        }
        self.archetypes[archetype_id].entities[row]
    }

    /// The cell that the entity in a row of an archetype holds for the
    /// component type at place `k` of the archetype.
    pub fn cell_at(&self, archetype_id: ArchetypeId, k: usize, row: usize) -> (cell: Stored)
        requires
            self.wf(),
            archetype_id < self@.archetypes.len(),
            k < self@.archetypes[archetype_id as int].components.len(),
            row < self@.archetypes[archetype_id as int].entities.len(),
        ensures
            cell == self@.entities[self@.archetypes[archetype_id as int].entities[row as int]][self@.archetypes[archetype_id as int].components[k as int]],
    {
        let archetype = &self.archetypes[archetype_id];
        proof {
            assert(self.row_ok(archetype_id as int, row as int, None));
            assert(self.archetype_ok(archetype_id as int));
            let e = archetype.entities@[row as int];
            assert(self.entity_ok(e));
            lemma_position(archetype.components@, archetype.components@[k as int], k as int);
            assert(archetype.components@[k as int] < self.components@.len());
        }
        match archetype.storages[k] {
            StorageType::Table => archetype.columns[k][row],
            StorageType::SparseSet => {
                let e: Entity = archetype.entities[row];
                let cell = self.sparse_sets[archetype.components[k]].get(e.id);
                cell.unwrap()
            },
        }
    }

}

} // verus!
