//! Entity handles and the allocator that issues and recycles them.

use vstd::prelude::*;

verus! {

/// Handle of an entity: a storage index and the generation of that index.
#[derive(Copy, Clone, Debug, PartialEq, Eq, Structural)]
pub struct Entity {
    pub id: u32,
    pub generation: u32,
}

impl Entity {
    pub fn new(id: u32, generation: u32) -> (e: Entity)
        ensures
            e == (Entity { id, generation }),
    {
        Entity { id, generation }
    }

    pub fn id(&self) -> (id: u32)
        ensures
            id == self.id,
    {
        self.id
    }

    pub fn generation(&self) -> (generation: u32)
        ensures
            generation == self.generation,
    {
        self.generation
    }

    /// The handle as one word: the generation in the upper half, the index in the lower.
    pub open spec fn bits(self) -> u64 {
        (self.generation * 0x1_0000_0000 + self.id) as u64
    }

    /// The handle that `bits` encodes.
    pub open spec fn of_bits(bits: u64) -> Entity {
        Entity { id: (bits % 0x1_0000_0000) as u32, generation: (bits / 0x1_0000_0000) as u32 }
    }

    /// The handle as one word.
    pub fn to_bits(&self) -> (bits: u64)
        ensures
            bits == self.bits(),
            Entity::of_bits(bits) == *self,
    {
        let high: u64 = self.generation as u64;
        let low: u64 = self.id as u64;
        proof {
            lemma_bits_round_trip(*self);
        }
        high * 0x1_0000_0000 + low
    }

    /// The handle that the word encodes.
    pub fn from_bits(bits: u64) -> (e: Entity)
        ensures
            e == Entity::of_bits(bits),
            e.bits() == bits,
    {
        let id: u64 = bits % 0x1_0000_0000;
        let generation: u64 = bits / 0x1_0000_0000;
        Entity { id: id as u32, generation: generation as u32 }
    }
}

/// Encoding a handle and decoding it again gives the handle back.
pub proof fn lemma_bits_round_trip(e: Entity)
    ensures
        e.generation * 0x1_0000_0000 + e.id <= u64::MAX,
        Entity::of_bits(e.bits()) == e,
{
    let g = e.generation as int;
    let i = e.id as int;
    assert(g * 0x1_0000_0000 + i <= 0xffff_ffff_ffff_ffff) by (nonlinear_arith)
        requires
            0 <= g <= 0xffff_ffff,
            0 <= i <= 0xffff_ffff,
    ;
    assert((g * 0x1_0000_0000 + i) % 0x1_0000_0000 == i && (g * 0x1_0000_0000 + i)
        / 0x1_0000_0000 == g) by (nonlinear_arith)
        requires
            0 <= g,
            0 <= i < 0x1_0000_0000,
    ;
}

/// Where the components of a live entity are stored.
#[derive(Copy, Clone, Debug, PartialEq, Eq, Structural)]
pub struct EntityLocation {
    pub archetype_id: usize,
    pub index: usize,
}

/// Per-index bookkeeping of the allocator.
#[derive(Copy, Clone, Debug)]
pub struct EntityMeta {
    pub generation: u32,
    pub location: Option<EntityLocation>,
}

/// The generations after the live handle `entity` was freed: the
/// generation of its index goes up by one, unless it is the largest
/// there is; then the index is retired and never issued again.
pub open spec fn freed_generations(generations: Seq<u32>, entity: Entity) -> Seq<u32> {
    if entity.generation < u32::MAX {
        generations.update(entity.id as int, (entity.generation + 1) as u32)
    } else {
        generations
    }
}

/// Issues entity handles and recycles the indices of freed ones.
pub struct Entities {
    meta: Vec<EntityMeta>,
    pending: Vec<u32>,
}

impl Entities {
    /// The live handles, each with its location.
    pub closed spec fn view(&self) -> Map<Entity, EntityLocation> {
        Map::new(
            |e: Entity|
                e.id < self.meta@.len() && self.meta@[e.id as int].generation == e.generation
                    && self.meta@[e.id as int].location.is_some(),
            |e: Entity| self.meta@[e.id as int].location.unwrap(),
        )
    }

    /// The generation of each index that has been issued so far.
    pub closed spec fn generations(&self) -> Seq<u32> {
        Seq::new(self.meta@.len(), |i: int| self.meta@[i].generation)
    }

    /// How many indices have been issued so far.
    pub open spec fn slots(&self) -> nat {
        self.generations().len()
    }

    /// The generation that index `id` currently has.
    pub open spec fn generation_at(&self, id: u32) -> u32 {
        self.generations()[id as int]
    }

    /// How many of the indices issued are free to be issued again.
    pub closed spec fn free_indices(&self) -> nat {
        self.pending@.len()
    }

    /// The free indices are indices that were issued, are not in use, and
    /// are all different.
    pub closed spec fn wf(&self) -> bool {
        &&& self.meta@.len() <= u32::MAX
        &&& forall|i: int|
            0 <= i < self.pending@.len() ==> (#[trigger] self.pending@[i]) < self.meta@.len()
        &&& forall|i: int|
            0 <= i < self.pending@.len()
                ==> self.meta@[(#[trigger] self.pending@[i]) as int].location.is_none()
        &&& forall|i: int, j: int|
            0 <= i < j < self.pending@.len() ==> self.pending@[i] != self.pending@[j]
    }

    pub fn new() -> (entities: Entities)
        ensures
            entities.wf(),
            entities@ == Map::<Entity, EntityLocation>::empty(),
            entities.generations() == Seq::<u32>::empty(),
            entities.free_indices() == 0,
    {
        let entities = Entities { meta: Vec::new(), pending: Vec::new() };
        assert(entities@ =~= Map::<Entity, EntityLocation>::empty());
        assert(entities.generations() =~= Seq::<u32>::empty());
        entities
    }

    /// Two live handles with the same index are the same handle, and every
    /// live handle has an index that was issued.
    pub proof fn lemma_live_handles_never_alias(&self, a: Entity, b: Entity)
        requires
            self@.contains_key(a),
            self@.contains_key(b),
            a.id == b.id,
        ensures
            a == b,
            a.id < self.slots(),
    {
    }

    /// A live handle carries the current generation of its index.
    pub proof fn lemma_live_generation(&self, e: Entity)
        requires
            self@.contains_key(e),
        ensures
            e.id < self.slots(),
            e.generation == self.generation_at(e.id),
    {
    }

    /// No index is free and none is left to issue.
    pub open spec fn exhausted(&self) -> bool {
        self.free_indices() == 0 && self.slots() >= u32::MAX
    }

    /// Issues a handle that is not live: a freed index with its current
    /// generation when there is one, else a new index with generation
    /// zero; nothing when the indices have run out.
    pub fn allocate(&mut self, location: EntityLocation) -> (r: Option<Entity>)
        requires
            old(self).wf(),
        ensures
            final(self).wf(),
            r.is_none() <==> old(self).exhausted(),
            r.is_none() ==> final(self)@ == old(self)@
                && final(self).generations() == old(self).generations()
                    && final(self).free_indices() == old(self).free_indices(),
            r matches Some(entity) ==> {
                &&& !old(self)@.contains_key(entity)
                &&& final(self)@ == old(self)@.insert(entity, location)
                &&& if old(self).free_indices() > 0 {
                    &&& entity.id < old(self).slots()
                    &&& entity.generation == old(self).generations()[entity.id as int]
                    &&& final(self).generations() == old(self).generations()
                    &&& final(self).free_indices() == old(self).free_indices() - 1
                } else {
                    &&& entity.id == old(self).slots()
                    &&& entity.generation == 0
                    &&& final(self).generations() == old(self).generations().push(0)
                    &&& final(self).free_indices() == 0
                }
            },
    {
        match self.pending.pop() {
            Some(id) => {
                let generation: u32 = self.meta[id as usize].generation;
                self.meta[id as usize].location = Some(location);
                let entity = Entity { id, generation };
                assert(self@ =~= old(self)@.insert(entity, location));
                assert(self.generations() =~= old(self).generations());
                Some(entity)
            },
            None => {
                if self.meta.len() >= u32::MAX as usize {
                    assert(self.generations() =~= old(self).generations());
                    return None;
                }
                let id: u32 = self.meta.len() as u32;
                self.meta.push(EntityMeta { generation: 0, location: Some(location) });
                let entity = Entity { id, generation: 0 };
                assert(self@ =~= old(self)@.insert(entity, location));
                assert(self.generations() =~= old(self).generations().push(0));
                Some(entity)
            },
        }
    }

    /// Releases a live handle and returns where its components were; does
    /// nothing for a handle that is not live.
    pub fn free(&mut self, entity: Entity) -> (location: Option<EntityLocation>)
        requires
            old(self).wf(),
        ensures
            final(self).wf(),
            old(self)@.contains_key(entity) ==> {
                &&& location == Some(old(self)@[entity])
                &&& final(self)@ == old(self)@.remove(entity)
                &&& final(self).generations() == freed_generations(old(self).generations(), entity)
                &&& final(self).free_indices() == old(self).free_indices() + (if entity.generation
                    < u32::MAX {
                    1nat
                } else {
                    0nat
                })
            },
            !old(self)@.contains_key(entity) ==> {
                &&& location.is_none()
                &&& final(self)@ == old(self)@
                &&& final(self).generations() == old(self).generations()
                &&& final(self).free_indices() == old(self).free_indices()
            },
    {
        let index: usize = entity.id as usize;
        if index >= self.meta.len() {
            return None;
        }
        let meta: EntityMeta = self.meta[index];
        if meta.generation != entity.generation {
            return None;
        }
        match meta.location {
            None => None,
            Some(location) => {
                let ghost before = self.generations();
                assert forall|i: int| 0 <= i < self.pending@.len() implies self.pending@[i]
                    != entity.id by {
                    assert(self.meta@[self.pending@[i] as int].location.is_none());
                }
                if meta.generation < u32::MAX {
                    self.meta[index] = EntityMeta {
                        generation: meta.generation + 1,
                        location: None,
                    };
                    self.pending.push(entity.id);
                } else {
                    // The index has run out of generations and is retired.
                    self.meta[index] = EntityMeta { generation: meta.generation, location: None };
                }
                assert(self@ =~= old(self)@.remove(entity));
                assert(self.generations() =~= freed_generations(before, entity));
                Some(location)
            },
        }
    }

    /// True iff the handle is live.
    pub fn contains(&self, entity: Entity) -> (r: bool)
        ensures
            r == self@.contains_key(entity),
    {
        self.get(entity).is_some()
    }

    /// The location of a live handle.
    pub fn get(&self, entity: Entity) -> (location: Option<EntityLocation>)
        ensures
            location == (if self@.contains_key(entity) {
                Some(self@[entity])
            } else {
                None
            }),
    {
        let index: usize = entity.id as usize;
        if index >= self.meta.len() {
            return None;
        }
        let meta: EntityMeta = self.meta[index];
        if meta.generation != entity.generation {
            return None;
        }
        meta.location
    }

    /// Records that the components of a live entity have moved.
    pub fn set_location(&mut self, entity: Entity, location: EntityLocation)
        requires
            old(self).wf(),
            old(self)@.contains_key(entity),
        ensures
            final(self).wf(),
            final(self)@ == old(self)@.insert(entity, location),
            final(self).generations() == old(self).generations(),
            final(self).free_indices() == old(self).free_indices(),
    {
        let index: usize = entity.id as usize;
        self.meta[index].location = Some(location);
        assert(self@ =~= old(self)@.insert(entity, location));
        assert(self.generations() =~= old(self).generations());
    }
}

/// Why the entities that a component refers to could not be mapped.
#[derive(Copy, Clone, Debug, PartialEq, Eq, Structural)]
pub enum MapEntitiesError {
    /// The map has no entry for the entity.
    EntityNotFound(Entity),
}

/// A map from entities to entities, as it arises when entities are
/// copied from one store into another.
pub struct EntityMap {
    pub(crate) keys: Vec<Entity>,
    pub(crate) values: Vec<Entity>,
}

impl EntityMap {
    /// The place of the key `entity`.
    pub open(crate) spec fn place(&self, entity: Entity) -> int {
        choose|i: int| 0 <= i < self.keys@.len() && self.keys@[i] == entity
    }

    /// The entity that each key is mapped to.
    pub closed spec fn view(&self) -> Map<Entity, Entity> {
        Map::new(
            |entity: Entity| self.keys@.contains(entity),
            |entity: Entity| self.values@[self.place(entity)],
        )
    }

    /// The entities that the keys are mapped to, in the order in which
    /// the keys were first inserted.
    pub closed spec fn targets(&self) -> Seq<Entity> {
        self.values@
    }

    /// The keys are all different, each with its value.
    pub closed spec fn wf(&self) -> bool {
        &&& self.keys@.len() == self.values@.len()
        &&& forall|i: int, j: int| 0 <= i < j < self.keys@.len() ==> self.keys@[i] != self.keys@[j]
    }

    pub fn new() -> (map: EntityMap)
        ensures
            map.wf(),
            map@ == Map::<Entity, Entity>::empty(),
            map.targets() == Seq::<Entity>::empty(),
    {
        let map = EntityMap { keys: Vec::new(), values: Vec::new() };
        assert(map@ =~= Map::<Entity, Entity>::empty());
        map
    }

    /// The place of a key, if it is one.
    fn find(&self, entity: Entity) -> (r: Option<usize>)
        requires
            self.wf(),
        ensures
            r.is_some() <==> self.keys@.contains(entity),
            r matches Some(i) ==> i < self.keys@.len() && self.keys@[i as int] == entity
                && self.place(
                entity,
            ) == i,
    {
        let mut i: usize = 0;
        while i < self.keys.len()
            invariant
                i <= self.keys@.len(),
                self.wf(),
                forall|j: int| 0 <= j < i ==> self.keys@[j] != entity,
            decreases self.keys@.len() - i,
        {
            if self.keys[i] == entity {
                proof {
                    let p = self.place(entity);
                    if p < i {
                        assert(self.keys@[p] != self.keys@[i as int]);
                    }
                    if i < p {
                        assert(self.keys@[i as int] != self.keys@[p]);
                    }
                }
                return Some(i);
            }
            i += 1;
        }
        None
    }

    /// Maps `from` to `to`, replacing what `from` was mapped to.
    pub fn insert(&mut self, from: Entity, to: Entity)
        requires
            old(self).wf(),
        ensures
            final(self).wf(),
            final(self)@ == old(self)@.insert(from, to),
            final(self).targets() == (if old(self)@.contains_key(from) {
                old(self).targets().update(old(self).place(from), to)
            } else {
                old(self).targets().push(to)
            }),
    {
        match self.find(from) {
            Some(i) => {
                self.values[i] = to;
                proof {
                    assert forall|e: Entity| self@.contains_key(e)
                        implies #[trigger] self@[e] == old(self)@.insert(from, to)[e] by {
                        let p = self.place(e);
                        if e != from {
                            assert(p != i);
                        }
                    }
                    assert(self@ =~= old(self)@.insert(from, to));
                }
            },
            None => {
                self.keys.push(from);
                self.values.push(to);
                proof {
                    let n = old(self).keys@.len() as int;
                    assert forall|e: Entity|
                        self@.contains_key(e)
                            <==> #[trigger] old(self)@.insert(from, to).contains_key(
                            e,
                        ) by {
                        if self.keys@.contains(e) {
                            let k = choose|k: int| 0 <= k < self.keys@.len() && self.keys@[k] == e;
                            if k < n {
                                assert(old(self).keys@[k] == e);
                            }
                        }
                        if old(self).keys@.contains(e) {
                            let k = choose|k: int| 0 <= k < n && old(self).keys@[k] == e;
                            assert(self.keys@[k] == e);
                        }
                        if e == from {
                            assert(self.keys@[n] == e);
                        }
                    }
                    assert forall|e: Entity| self@.contains_key(e)
                        implies #[trigger] self@[e] == old(self)@.insert(from, to)[e] by {
                        let p = self.place(e);
                        if e == from {
                            if p < n {
                                assert(old(self).keys@[p] == from);
                            }
                        } else {
                            let k = old(self).place(e);
                            assert(old(self).keys@.contains(e)) by {
                                if p < n {
                                    assert(old(self).keys@[p] == e);
                                }
                            }
                            assert(self.keys@[k] == e);
                            if p < k {
                                assert(self.keys@[p] != self.keys@[k]);
                            }
                            if k < p {
                                assert(self.keys@[k] != self.keys@[p]);
                            }
                        }
                    }
                    assert(self@ =~= old(self)@.insert(from, to));
                }
            },
        }
    }

    /// The entity that `entity` is mapped to.
    pub fn get(&self, entity: Entity) -> (r: Result<Entity, MapEntitiesError>)
        requires
            self.wf(),
        ensures
            r == (if self@.contains_key(entity) {
                Ok::<Entity, MapEntitiesError>(self@[entity])
            } else {
                Err::<Entity, MapEntitiesError>(MapEntitiesError::EntityNotFound(entity))
            }),
    {
        match self.find(entity) {
            Some(i) => Ok(self.values[i]),
            None => Err(MapEntitiesError::EntityNotFound(entity)),
        }
    }

    /// The number of keys.
    pub fn len(&self) -> (n: usize)
        ensures
            n == self.targets().len(),
    {
        self.values.len()
    }

    /// The entity that the key at place `i` is mapped to.
    pub fn value_at(&self, i: usize) -> (entity: Entity)
        requires
            i < self.targets().len(),
        ensures
            entity == self.targets()[i as int],
    {
        self.values[i]
    }
}

} // verus!
