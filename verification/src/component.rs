//! Component identity, storage strategy and change-detection counters.

use vstd::prelude::*;

verus! {

/// Dense index of a registered component type.
pub type ComponentId = usize;

/// How the values of one component type are laid out.
#[derive(Copy, Clone, Debug, PartialEq, Eq, Structural)]
pub enum StorageType {
    /// One dense column per archetype, good for iteration.
    Table,
    /// One world-wide array keyed by entity index, good for rare components.
    SparseSet,
}

/// What is known of a component type when it is registered: the key of
/// its type and the storage strategy for its values.
#[derive(Copy, Clone, Debug, PartialEq, Eq, Structural)]
pub struct ComponentDescriptor {
    pub type_id: u64,
    pub storage_type: StorageType,
}

impl ComponentDescriptor {
    pub fn new(type_id: u64, storage_type: StorageType) -> (descriptor: ComponentDescriptor)
        ensures
            descriptor == (ComponentDescriptor { type_id, storage_type }),
    {
        ComponentDescriptor { type_id, storage_type }
    }
}

/// Why a component type could not be registered.
#[derive(Copy, Clone, Debug, PartialEq, Eq, Structural)]
pub enum ComponentsError {
    /// The type is registered already, under the identifier given.
    ComponentAlreadyExists { type_id: u64, existing_id: ComponentId },
}

/// The identifier under which `type_id` is registered in `registry`.
pub open spec fn id_of(registry: Seq<ComponentDescriptor>, type_id: u64) -> Option<ComponentId> {
    if exists|id: int| 0 <= id < registry.len() && registry[id].type_id == type_id {
        Some((choose|id: int| 0 <= id < registry.len() && registry[id].type_id == type_id) as usize)
    } else {
        None
    }
}

/// No two registered component types share a type key.
pub open spec fn distinct_types(registry: Seq<ComponentDescriptor>) -> bool {
    forall|i: int, j: int|
        0 <= i < j < registry.len() ==> registry[i].type_id != registry[j].type_id
}

/// In a registry without repeated types, a type is found where it stands.
pub proof fn lemma_id_of(registry: Seq<ComponentDescriptor>, id: int)
    requires
        distinct_types(registry),
        0 <= id < registry.len(),
        registry.len() <= usize::MAX,
    ensures
        id_of(registry, registry[id].type_id) == Some(id as usize),
{
    let type_id = registry[id].type_id;
    let found = choose|k: int| 0 <= k < registry.len() && registry[k].type_id == type_id;
    if found < id {
        assert(registry[found].type_id != registry[id].type_id);
    }
    if id < found {
        assert(registry[id].type_id != registry[found].type_id);
    }
}

/// The registry of component types: each gets a dense identifier, in order
/// of registration.
pub struct Components {
    descriptors: Vec<ComponentDescriptor>,
}

impl Components {
    /// The descriptors of the registered types, indexed by identifier.
    pub closed spec fn view(&self) -> Seq<ComponentDescriptor> {
        self.descriptors@
    }

    /// No two registered types share a type key.
    pub open spec fn wf(&self) -> bool {
        distinct_types(self@)
    }

    pub fn new() -> (components: Components)
        ensures
            components.wf(),
            components@ == Seq::<ComponentDescriptor>::empty(),
    {
        Components { descriptors: Vec::new() }
    }

    /// The number of registered component types.
    pub fn len(&self) -> (n: usize)
        ensures
            n == self@.len(),
    {
        self.descriptors.len()
    }

    /// The identifier of a registered type.
    pub fn get_id(&self, type_id: u64) -> (r: Option<ComponentId>)
        requires
            self.wf(),
        ensures
            r == id_of(self@, type_id),
            r matches Some(id) ==> id < self@.len() && self@[id as int].type_id == type_id,
    {
        let mut i: usize = 0;
        while i < self.descriptors.len()
            invariant
                i <= self.descriptors@.len(),
                self.wf(),
                forall|j: int| 0 <= j < i ==> self.descriptors@[j].type_id != type_id,
            decreases self.descriptors@.len() - i,
        {
            if self.descriptors[i].type_id == type_id {
                proof {
                    lemma_id_of(self@, i as int);
                }
                return Some(i);
            }
            i += 1;
        }
        None
    }

    /// The descriptor of a registered identifier.
    pub fn get_info(&self, id: ComponentId) -> (r: Option<ComponentDescriptor>)
        ensures
            r == (if id < self@.len() {
                Some(self@[id as int])
            } else {
                None
            }),
    {
        if id < self.descriptors.len() {
            Some(self.descriptors[id])
        } else {
            None
        }
    }

    /// Registers a component type, unless its type key is taken.
    pub fn add(&mut self, descriptor: ComponentDescriptor) -> (r: Result<
        ComponentId,
        ComponentsError,
    >)
        requires
            old(self).wf(),
        ensures
            final(self).wf(),
            match id_of(old(self)@, descriptor.type_id) {
                Some(existing_id) => r == Err::<ComponentId, ComponentsError>(
                    ComponentsError::ComponentAlreadyExists {
                        type_id: descriptor.type_id,
                        existing_id,
                    },
                ) && final(self)@ == old(self)@,
                None => r == Ok::<ComponentId, ComponentsError>(old(self)@.len() as usize)
                    && final(self)@ == old(self)@.push(descriptor),
            },
    {
        match self.get_id(descriptor.type_id) {
            Some(existing_id) => Err(
                ComponentsError::ComponentAlreadyExists { type_id: descriptor.type_id,
                    existing_id },
            ),
            None => {
                let id: usize = self.descriptors.len();
                self.descriptors.push(descriptor);
                Ok(id)
            },
        }
    }

    /// The identifier of a type, which is registered with table storage if
    /// it was not registered before.
    pub fn get_or_insert_id(&mut self, type_id: u64) -> (id: ComponentId)
        requires
            old(self).wf(),
        ensures
            final(self).wf(),
            id < final(self)@.len(),
            final(self)@[id as int].type_id == type_id,
            match id_of(old(self)@, type_id) {
                Some(existing_id) => id == existing_id && final(self)@ == old(self)@,
                None => id == old(self)@.len() && final(self)@ == old(self)@.push(
                    ComponentDescriptor { type_id, storage_type: StorageType::Table },
                ),
            },
    {
        match self.get_id(type_id) {
            Some(id) => id,
            None => {
                let id: usize = self.descriptors.len();
                self.descriptors.push(
                    ComponentDescriptor { type_id, storage_type: StorageType::Table },
                );
                id
            },
        }
    }
}

/// The largest age a counter is allowed to reach before it is rebased:
/// half of the range of the global counter.
pub const MAX_AGE: u32 = 0x7fff_ffff;

/// Distance from `counter` up to `global`, modulo the range of `u32`.
pub open spec fn counter_age(global: u32, counter: u32) -> int {
    if global >= counter {
        global - counter
    } else {
        global - counter + 0x1_0000_0000
    }
}

/// `counter` was set more recently than `system_counter`, as seen from `global`.
pub open spec fn is_newer(counter: u32, system_counter: u32, global: u32) -> bool {
    counter_age(global, counter) < counter_age(global, system_counter)
}

/// The value of a counter after a wraparound check against `global`.
pub open spec fn clamped_counter(counter: u32, global: u32) -> u32 {
    if counter_age(global, counter) > MAX_AGE {
        vstd::wrapping::u32_specs::wrapping_sub(global, MAX_AGE)
    } else {
        counter
    }
}

/// The global counter after `steps` increments.
pub open spec fn advance(global: u32, steps: nat) -> u32 {
    ((global + steps) % 0x1_0000_0000) as u32
}

/// Computes the age of `counter` as seen from `global`.
pub fn age_of(global: u32, counter: u32) -> (age: u32)
    ensures
        age == counter_age(global, counter),
{
    global.wrapping_sub(counter)
}

/// Rebases `counter` when it has fallen more than [`MAX_AGE`] behind `global`.
pub fn check_counter(counter: &mut u32, global: u32)
    ensures
        *final(counter) == clamped_counter(*old(counter), global),
        counter_age(global, *final(counter)) <= MAX_AGE,
{
    let age: u32 = age_of(global, *counter);
    if age > MAX_AGE {
        *counter = global.wrapping_sub(MAX_AGE);
    }
}

/// The two counters carried by every stored component value.
#[derive(Copy, Clone, Debug, PartialEq, Eq, Structural)]
pub struct ComponentCounters {
    pub added: u32,
    pub changed: u32,
}

impl ComponentCounters {
    /// Counters of a value inserted while the global counter reads `global`.
    pub fn new(global: u32) -> (counters: Self)
        ensures
            counters == (ComponentCounters { added: global, changed: global }),
    {
        ComponentCounters { added: global, changed: global }
    }

    /// The component was added after the system last ran.
    pub open spec fn added_since(&self, system_counter: u32, global: u32) -> bool {
        is_newer(self.added, system_counter, global)
    }

    /// The component was added or written after the system last ran.
    pub open spec fn changed_since(&self, system_counter: u32, global: u32) -> bool {
        is_newer(self.changed, system_counter, global)
    }

    /// True iff the value was added after the system last ran.
    pub fn is_added(&self, system_counter: u32, global: u32) -> (r: bool)
        ensures
            r == self.added_since(system_counter, global),
    {
        age_of(global, self.added) < age_of(global, system_counter)
    }

    /// True iff the value was added or written after the system last ran.
    pub fn is_changed(&self, system_counter: u32, global: u32) -> (r: bool)
        ensures
            r == self.changed_since(system_counter, global),
    {
        age_of(global, self.changed) < age_of(global, system_counter)
    }

    /// True iff the value was written, but not added, after the system last ran.
    pub fn is_mutated(&self, system_counter: u32, global: u32) -> (r: bool)
        ensures
            r == (self.changed_since(system_counter, global) && !self.added_since(
                system_counter,
                global,
            )),
    {
        self.is_changed(system_counter, global) && !self.is_added(system_counter, global)
    }

    /// Records a write made while the global counter reads `global`.
    pub fn set_changed(&mut self, global: u32)
        ensures
            final(self).changed == global,
            final(self).added == old(self).added,
    {
        self.changed = global;
    }

    /// Rebases both counters against `global`.
    pub fn check_counters(&mut self, global: u32)
        ensures
            final(self).added == clamped_counter(old(self).added, global),
            final(self).changed == clamped_counter(old(self).changed, global),
    {
        check_counter(&mut self.added, global);
        check_counter(&mut self.changed, global);
    }
}

/// A component value together with its counters.
#[derive(Copy, Clone, Debug, PartialEq, Eq, Structural)]
pub struct Stored {
    pub value: u64,
    pub counters: ComponentCounters,
}

impl Stored {
    /// The cell written by an insertion at `global`.
    pub open spec fn inserted(value: u64, global: u32) -> Stored {
        Stored { value, counters: ComponentCounters { added: global, changed: global } }
    }

    /// The cell after a write of `value` at `global`.
    pub open spec fn written(self, value: u64, global: u32) -> Stored {
        Stored { value, counters: ComponentCounters { added: self.counters.added,
            changed: global } }
    }

    /// The cell after its counters were rebased against `global`.
    pub open spec fn rebased(self, global: u32) -> Stored {
        Stored {
            value: self.value,
            counters: ComponentCounters {
                added: clamped_counter(self.counters.added, global),
                changed: clamped_counter(self.counters.changed, global),
            },
        }
    }

    pub fn new(value: u64, global: u32) -> (s: Stored)
        ensures
            s == Stored::inserted(value, global),
    {
        Stored { value, counters: ComponentCounters::new(global) }
    }

    /// Rebases the counters of the cell against `global`.
    pub fn check_counters(&mut self, global: u32)
        ensures
            *final(self) == old(self).rebased(global),
    {
        self.counters.check_counters(global);
    }
}

/// A system that has never run, whose counter is `u32::MAX`, sees a counter
/// as newer exactly when the counter does not lie ahead of the global one
/// and the global counter is not itself at its maximum.
pub proof fn lemma_first_run_observes(counter: u32, global: u32)
    ensures
        is_newer(counter, u32::MAX, global) <==> (counter <= global && global < u32::MAX),
{
}

/// A system that has never run sees every component written at or before
/// the current global counter as both added and changed.
pub proof fn lemma_first_run_sees_added_and_changed(counters: ComponentCounters, global: u32)
    requires
        counters.added <= global,
        counters.changed <= global,
        global < u32::MAX,
    ensures
        counters.added_since(u32::MAX, global),
        counters.changed_since(u32::MAX, global),
{
}

/// Counters written at `written` are newer than a system that last ran
/// before then, and not newer than one that last ran at or after then,
/// as long as the global counter has not wrapped past either.
pub proof fn lemma_newer_without_wraparound(written: u32, system_counter: u32, global: u32)
    requires
        written <= global,
        system_counter <= global,
    ensures
        is_newer(written, system_counter, global) <==> system_counter < written,
{
}

/// A counter is never newer than itself: a system that ran at the global
/// value at which a component was written does not see that write again.
pub proof fn lemma_not_newer_than_itself(written: u32, global: u32)
    ensures
        !is_newer(written, written, global),
{
}

/// Advancing the global counter ages a counter by the same amount, as long
/// as the age stays inside the range of the counter.
pub proof fn lemma_age_advances(global: u32, counter: u32, steps: nat)
    requires
        counter_age(global, counter) + steps < 0x1_0000_0000,
    ensures
        counter_age(advance(global, steps), counter) == counter_age(global, counter) + steps,
{
    let sum = global + steps;
    if sum < 0x1_0000_0000 {
        assert(sum % 0x1_0000_0000 == sum) by (nonlinear_arith)
            requires
                0 <= sum < 0x1_0000_0000,
        ;
    } else {
        assert(sum % 0x1_0000_0000 == sum - 0x1_0000_0000) by (nonlinear_arith)
            requires
                0x1_0000_0000 <= sum < 2 * 0x1_0000_0000,
        ;
    }
}

/// After a wraparound check the order of two counters, as seen from later
/// global values, stays what it was for as many increments as the older
/// of them has room for.
pub proof fn lemma_order_stable_after_check(a: u32, b: u32, global: u32, steps: nat)
    requires
        counter_age(global, a) + steps < 0x1_0000_0000,
        counter_age(global, b) + steps < 0x1_0000_0000,
    ensures
        is_newer(a, b, advance(global, steps)) == is_newer(a, b, global),
{
    lemma_age_advances(global, a, steps);
    lemma_age_advances(global, b, steps);
}

} // verus!
