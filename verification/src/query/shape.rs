//! The shape of a query: what it fetches for each entity and which
//! entities it selects.

use vstd::prelude::*;
use crate::component::{ComponentId, Stored};
use crate::entity::Entity;
use crate::query::access::{AccessView, FilteredAccess, FilteredAccessView};
use crate::world::WorldView;

verus! {

/// One thing that a query fetches for each entity it selects.
#[derive(Copy, Clone, Debug, PartialEq, Eq, Structural)]
pub enum Fetch {
    /// Nothing but the entity's handle, which every item carries.
    Entity,
    /// The value of a component that the entity must hold.
    Read(ComponentId),
    /// The value of a component that the entity must hold, for writing.
    Write(ComponentId),
    /// The value of a component, if the entity holds it.
    OptionalRead(ComponentId),
    /// The value of a component, if the entity holds it, for writing.
    OptionalWrite(ComponentId),
}

/// One condition that an entity must meet to be selected.
#[derive(Copy, Clone, Debug, PartialEq, Eq, Structural)]
pub enum Filter {
    /// The entity holds the component.
    With(ComponentId),
    /// The entity does not hold the component.
    Without(ComponentId),
    /// The entity holds the component, added since the system last ran.
    Added(ComponentId),
    /// The entity holds the component, added or written since the system
    /// last ran.
    Changed(ComponentId),
}

/// What one term of a query does with one component type.
#[derive(Copy, Clone, Debug, PartialEq, Eq, Structural)]
pub struct TermUse {
    pub component: ComponentId,
    /// The term reads or writes values or counters of the component.
    pub access: bool,
    /// The term writes values of the component.
    pub writes: bool,
    /// The term asks that the entity hold the component.
    pub with: bool,
    /// The term asks that the entity not hold the component.
    pub without: bool,
}

/// A question about a term's use of a component.
#[derive(Copy, Clone, Debug, PartialEq, Eq, Structural)]
pub enum UseKind {
    Access,
    Write,
    With,
    Without,
}

impl TermUse {
    /// Whether the term uses its component in the way `kind`.
    pub open spec fn has(self, kind: UseKind) -> bool {
        match kind {
            UseKind::Access => self.access,
            UseKind::Write => self.access && self.writes,
            UseKind::With => self.with,
            UseKind::Without => self.without,
        }
    }
}

/// Why a query could not be set up.
#[derive(Copy, Clone, Debug, PartialEq, Eq, Structural)]
pub enum QueryError {
    /// A term names a component type that is not registered.
    UnknownComponent(ComponentId),
    /// A term reads or writes a component type that an earlier term
    /// writes, or writes one that an earlier term reads.
    Conflict(ComponentId),
}

impl Fetch {
    /// The component type of the term.
    pub open spec fn component(self) -> Option<ComponentId> {
        match self {
            Fetch::Entity => None,
            Fetch::Read(c) => Some(c),
            Fetch::Write(c) => Some(c),
            Fetch::OptionalRead(c) => Some(c),
            Fetch::OptionalWrite(c) => Some(c),
        }
    }

    /// The term fetches for writing.
    pub open spec fn writes(self) -> bool {
        self is Write || self is OptionalWrite
    }

    /// The entity must hold the component of the term.
    pub open spec fn required(self) -> bool {
        self is Read || self is Write
    }

    /// What the term does with its component.
    pub open spec fn term_use(self) -> Option<TermUse> {
        match self.component() {
            None => None,
            Some(c) => Some(
                TermUse {
                    component: c,
                    access: true,
                    writes: self.writes(),
                    with: self.required(),
                    without: false,
                },
            ),
        }
    }

    /// What the term does with its component.
    pub fn get_use(&self) -> (r: Option<TermUse>)
        ensures
            r == self.term_use(),
    {
        match self {
            Fetch::Entity => None,
            Fetch::Read(c) => Some(
                TermUse { component: *c, access: true, writes: false, with: true, without: false },
            ),
            Fetch::Write(c) => Some(
                TermUse { component: *c, access: true, writes: true, with: true, without: false },
            ),
            Fetch::OptionalRead(c) => Some(
                TermUse { component: *c, access: true, writes: false, with: false, without: false },
            ),
            Fetch::OptionalWrite(c) => Some(
                TermUse { component: *c, access: true, writes: true, with: false, without: false },
            ),
        }
    }
}

impl Fetch {
    /// The component type of the term, if it has one.
    pub fn component_id(&self) -> (r: Option<ComponentId>)
        ensures
            r == self.component(),
    {
        match self {
            Fetch::Entity => None,
            Fetch::Read(c) => Some(*c),
            Fetch::Write(c) => Some(*c),
            Fetch::OptionalRead(c) => Some(*c),
            Fetch::OptionalWrite(c) => Some(*c),
        }
    }
}

impl Filter {
    /// The component type of the condition.
    pub fn component_id(&self) -> (r: ComponentId)
        ensures
            r == self.component(),
    {
        match self {
            Filter::With(c) => *c,
            Filter::Without(c) => *c,
            Filter::Added(c) => *c,
            Filter::Changed(c) => *c,
        }
    }

    /// The component type of the condition.
    pub open spec fn component(self) -> ComponentId {
        match self {
            Filter::With(c) => c,
            Filter::Without(c) => c,
            Filter::Added(c) => c,
            Filter::Changed(c) => c,
        }
    }

    /// What the term does with its component.
    pub open spec fn term_use(self) -> TermUse {
        TermUse {
            component: self.component(),
            access: self is Added || self is Changed,
            writes: false,
            with: !(self is Without),
            without: self is Without,
        }
    }

    /// What the term does with its component.
    pub fn get_use(&self) -> (r: TermUse)
        ensures
            r == self.term_use(),
    {
        match self {
            Filter::With(c) => TermUse {
                component: *c,
                access: false,
                writes: false,
                with: true,
                without: false,
            },
            Filter::Without(c) => TermUse {
                component: *c,
                access: false,
                writes: false,
                with: false,
                without: true,
            },
            Filter::Added(c) => TermUse {
                component: *c,
                access: true,
                writes: false,
                with: true,
                without: false,
            },
            Filter::Changed(c) => TermUse {
                component: *c,
                access: true,
                writes: false,
                with: true,
                without: false,
            },
        }
    }
}

/// One result of a query: an entity and, for each fetch term, the value
/// fetched, if the entity holds the component of the term.
#[derive(Debug, PartialEq, Eq)]
pub struct QueryItem {
    pub entity: Entity,
    pub values: Vec<Option<u64>>,
}

/// The mathematical content of a [`QueryItem`].
pub struct QueryItemView {
    pub entity: Entity,
    pub values: Seq<Option<u64>>,
}

impl QueryItem {
    pub open spec fn view(&self) -> QueryItemView {
        QueryItemView { entity: self.entity, values: self.values@ }
    }
}

/// The mathematical contents of a list of items.
pub open spec fn items_view(items: Seq<QueryItem>) -> Seq<QueryItemView> {
    Seq::new(items.len(), |i: int| items[i]@)
}

/// Some term among the first `i` uses component `c` in the way `kind`.
pub open spec fn used(uses: Seq<Option<TermUse>>, i: int, c: ComponentId, kind: UseKind) -> bool {
    exists|j: int| 0 <= j < i && used_at(uses, j, c, kind)
}

/// The term at place `j` uses component `c` in the way `kind`.
pub open spec fn used_at(uses: Seq<Option<TermUse>>, j: int, c: ComponentId,
    kind: UseKind) -> bool {
    uses[j] matches Some(u) && u.component == c && u.has(kind)
}

/// A use among the first `i + 1` is one among the first `i` or the one at `i`.
pub proof fn lemma_used_step(uses: Seq<Option<TermUse>>, i: int, c: ComponentId, kind: UseKind)
    requires
        0 <= i < uses.len(),
    ensures
        used(uses, i + 1, c, kind) <==> used(uses, i, c, kind) || used_at(uses, i, c, kind),
{
    if used(uses, i + 1, c, kind) {
        let j = choose|j: int| 0 <= j < i + 1 && used_at(uses, j, c, kind);
        if j < i {
            assert(0 <= j < i && used_at(uses, j, c, kind));
        }
    }
    if used(uses, i, c, kind) {
        let j = choose|j: int| 0 <= j < i && used_at(uses, j, c, kind);
        assert(0 <= j < i + 1 && used_at(uses, j, c, kind));
    }
    if used_at(uses, i, c, kind) {
        assert(0 <= i < i + 1 && used_at(uses, i, c, kind));
    }
}

/// The footprint of the first `i` terms.
pub open spec fn access_of(uses: Seq<Option<TermUse>>, i: int) -> FilteredAccessView {
    FilteredAccessView {
        access: AccessView {
            reads_all: false,
            reads_and_writes: Set::new(|c: ComponentId| used(uses, i, c, UseKind::Access)),
            writes: Set::new(|c: ComponentId| used(uses, i, c, UseKind::Write)),
        },
        with: Set::new(|c: ComponentId| used(uses, i, c, UseKind::With)),
        without: Set::new(|c: ComponentId| used(uses, i, c, UseKind::Without)),
    }
}

/// What is wrong with the term at place `i`, given the terms before it.
pub open spec fn use_error(uses: Seq<Option<TermUse>>, registry_len: nat, i: int) -> Option<
    QueryError,
> {
    match uses[i] {
        None => None,
        Some(u) => if u.component >= registry_len {
            Some(QueryError::UnknownComponent(u.component))
        } else if u.access && (used(uses, i, u.component, UseKind::Write) || (u.writes && used(
            uses,
            i,
            u.component,
            UseKind::Access,
        ))) {
            Some(QueryError::Conflict(u.component))
        } else {
            None
        },
    }
}

/// What is wrong with the first of the first `i` terms that has
/// something wrong with it.
pub open spec fn first_error(uses: Seq<Option<TermUse>>, registry_len: nat, i: int) -> Option<
    QueryError,
>
    decreases i,
{
    if i <= 0 {
        None
    } else {
        match first_error(uses, registry_len, i - 1) {
            Some(error) => Some(error),
            None => use_error(uses, registry_len, i - 1),
        }
    }
}

/// What a query asks for.
pub struct QueryShape {
    pub fetches: Seq<Fetch>,
    pub filters: Seq<Filter>,
}

impl QueryShape {
    /// The uses of components by the terms: those of the fetch terms,
    /// then those of the filter terms.
    pub open spec fn uses(self) -> Seq<Option<TermUse>> {
        Seq::new(
            self.fetches.len() + self.filters.len(),
            |i: int|
                if i < self.fetches.len() {
                    self.fetches[i].term_use()
                } else {
                    Some(self.filters[i - self.fetches.len()].term_use())
                },
        )
    }

    /// What is wrong with the shape, if anything.
    pub open spec fn error(self, registry_len: nat) -> Option<QueryError> {
        first_error(self.uses(), registry_len, self.uses().len() as int)
    }

    /// The footprint of the query over component types.
    pub open spec fn component_access(self) -> FilteredAccessView {
        access_of(self.uses(), self.uses().len() as int)
    }

    /// Entities with exactly the component types `components` meet the
    /// conditions on what they hold.
    pub open spec fn matches(self, components: Seq<ComponentId>) -> bool {
        forall|j: int|
            0 <= j < self.uses().len() ==> match #[trigger] self.uses()[j] {
                None => true,
                Some(u) => (u.with ==> components.contains(u.component)) && (u.without
                    ==> !components.contains(u.component)),
            }
    }

    /// An entity with the components `cells` meets the conditions on its
    /// counters, for a system that last ran at `system_counter`.
    pub open spec fn passes(
        self,
        cells: Map<ComponentId, Stored>,
        system_counter: u32,
        global_system_counter: u32,
    ) -> bool {
        forall|j: int|
            0 <= j < self.filters.len() ==> match #[trigger] self.filters[j] {
                Filter::Added(c) => cells[c].counters.added_since(
                    system_counter,
                    global_system_counter,
                ),
                Filter::Changed(c) => cells[c].counters.changed_since(
                    system_counter,
                    global_system_counter,
                ),
                _ => true,
            }
    }

    /// The item that the query yields for an entity with the components `cells`.
    pub open spec fn item(self, entity: Entity, cells: Map<ComponentId, Stored>) -> QueryItemView {
        QueryItemView {
            entity,
            values: Seq::new(
                self.fetches.len(),
                |i: int|
                    match self.fetches[i].component() {
                        Some(c) => if cells.contains_key(c) {
                            Some(cells[c].value)
                        } else {
                            None
                        },
                        None => None,
                    },
            ),
        }
    }

    /// The query selects the live entity.
    pub open spec fn selects(
        self,
        world: WorldView,
        entity: Entity,
        system_counter: u32,
        global_system_counter: u32,
    ) -> bool {
        &&& world.contains(entity)
        &&& self.matches(world.archetypes[world.locations[entity].archetype_id as int].components)
        &&& self.passes(world.entities[entity], system_counter, global_system_counter)
    }

    /// The items for the first `n` rows of archetype `a`, in row order.
    pub open spec fn row_items(
        self,
        world: WorldView,
        a: int,
        n: int,
        system_counter: u32,
        global_system_counter: u32,
    ) -> Seq<QueryItemView>
        decreases n,
    {
        if n <= 0 {
            Seq::empty()
        } else {
            let before = self.row_items(world, a, n - 1, system_counter, global_system_counter);
            let entity = world.archetypes[a].entities[n - 1];
            if self.passes(world.entities[entity], system_counter, global_system_counter) {
                before.push(self.item(entity, world.entities[entity]))
            } else {
                before
            }
        }
    }

    /// The items for the rows from `lo` up to, not including, `hi` of
    /// archetype `a`, in row order.
    pub open spec fn range_items(
        self,
        world: WorldView,
        a: int,
        lo: int,
        hi: int,
        system_counter: u32,
        global_system_counter: u32,
    ) -> Seq<QueryItemView>
        decreases hi - lo,
    {
        if hi <= lo {
            Seq::empty()
        } else {
            let before = self.range_items(
                world,
                a,
                lo,
                hi - 1,
                system_counter,
                global_system_counter,
            );
            let entity = world.archetypes[a].entities[hi - 1];
            if self.passes(world.entities[entity], system_counter, global_system_counter) {
                before.push(self.item(entity, world.entities[entity]))
            } else {
                before
            }
        }
    }

    /// The items of the first `hi` rows are those of the first `mid`
    /// rows followed by those of the rows from `mid` to `hi`.
    pub proof fn lemma_row_items_split(
        self,
        world: WorldView,
        a: int,
        mid: int,
        hi: int,
        system_counter: u32,
        global_system_counter: u32,
    )
        requires
            0 <= mid <= hi,
        ensures
            self.row_items(world, a, hi, system_counter, global_system_counter) == self.row_items(
                world,
                a,
                mid,
                system_counter,
                global_system_counter,
            ) + self.range_items(world, a, mid, hi, system_counter, global_system_counter),
        decreases hi - mid,
    {
        let first = self.row_items(world, a, mid, system_counter, global_system_counter);
        if mid < hi {
            self.lemma_row_items_split(world, a, mid, hi - 1, system_counter,
                global_system_counter);
            let before = self.range_items(
                world,
                a,
                mid,
                hi - 1,
                system_counter,
                global_system_counter,
            );
            let entity = world.archetypes[a].entities[hi - 1];
            if self.passes(world.entities[entity], system_counter, global_system_counter) {
                let item = self.item(entity, world.entities[entity]);
                assert((first + before).push(item) =~= first + before.push(item));
            }
        } else {
            assert(first + Seq::<QueryItemView>::empty() =~= first);
        }
    }

    /// The items of the whole of archetype `a`, if the archetype matches.
    pub open spec fn archetype_items(
        self,
        world: WorldView,
        a: int,
        system_counter: u32,
        global_system_counter: u32,
    ) -> Seq<QueryItemView> {
        if self.matches(world.archetypes[a].components) {
            self.row_items(
                world,
                a,
                world.archetypes[a].entities.len() as int,
                system_counter,
                global_system_counter,
            )
        } else {
            Seq::empty()
        }
    }

    /// The items for the first `n` archetypes: archetypes in order of
    /// creation, and the entities of each in row order.
    pub open spec fn items(
        self,
        world: WorldView,
        n: int,
        system_counter: u32,
        global_system_counter: u32,
    ) -> Seq<QueryItemView>
        decreases n,
    {
        if n <= 0 {
            Seq::empty()
        } else {
            self.items(world, n - 1, system_counter, global_system_counter) + self.archetype_items(
                world,
                n - 1,
                system_counter,
                global_system_counter,
            )
        }
    }

    /// Archetypes that do not match add no items.
    pub proof fn lemma_items_skip(
        self,
        world: WorldView,
        lo: int,
        hi: int,
        system_counter: u32,
        global_system_counter: u32,
    )
        requires
            0 <= lo <= hi,
            forall|a: int| lo <= a < hi
                ==> !self.matches(#[trigger] world.archetypes[a].components),
        ensures
            self.items(world, hi, system_counter, global_system_counter) == self.items(
                world,
                lo,
                system_counter,
                global_system_counter,
            ),
        decreases hi - lo,
    {
        if lo < hi {
            self.lemma_items_skip(world, lo, hi - 1, system_counter, global_system_counter);
            assert(!self.matches(world.archetypes[hi - 1].components));
            assert(self.items(world, hi - 1, system_counter, global_system_counter) + Seq::<
                QueryItemView,
            >::empty() =~= self.items(world, hi - 1, system_counter, global_system_counter));
        }
    }

    /// The archetype `a` matches, and the query reads, or writes if
    /// `write` is set, the component at its place `k`, whose archetype
    /// component identifier is `id`.
    pub open spec fn touches_at(self, world: WorldView, a: int, k: int, id: usize,
        write: bool) -> bool {
        &&& 0 <= k < world.archetypes[a].components.len()
        &&& world.archetypes[a].access_ids[k] == id
        &&& self.matches(world.archetypes[a].components)
        &&& used(
            self.uses(),
            self.uses().len() as int,
            world.archetypes[a].components[k],
            if write {
                UseKind::Write
            } else {
                UseKind::Access
            },
        )
    }

    /// The query touches the archetype component `id` at one of the
    /// first `n` places of archetype `a`.
    pub open spec fn touches_in(self, world: WorldView, a: int, n: int, id: usize,
        write: bool) -> bool {
        exists|k: int| 0 <= k < n && self.touches_at(world, a, k, id, write)
    }

    /// The query touches the archetype component `id` in one of the
    /// first `n` archetypes.
    pub open spec fn touches(self, world: WorldView, n: int, id: usize, write: bool) -> bool {
        exists|a: int|
            0 <= a < n && self.touches_in(
                world,
                a,
                world.archetypes[a].components.len() as int,
                id,
                write,
            )
    }

    /// Touching at one of the first `n + 1` places is touching at one of
    /// the first `n` or at place `n`.
    pub proof fn lemma_touches_in_step(self, world: WorldView, a: int, n: int, id: usize,
        write: bool)
        requires
            0 <= n,
        ensures
            self.touches_in(world, a, n + 1, id, write) <==> self.touches_in(world, a, n, id, write)
                || self.touches_at(world, a, n, id, write),
    {
        if self.touches_in(world, a, n + 1, id, write) {
            let k = choose|k: int| 0 <= k < n + 1 && self.touches_at(world, a, k, id, write);
            if k < n {
                assert(0 <= k < n && self.touches_at(world, a, k, id, write));
            }
        }
        if self.touches_in(world, a, n, id, write) {
            let k = choose|k: int| 0 <= k < n && self.touches_at(world, a, k, id, write);
            assert(0 <= k < n + 1 && self.touches_at(world, a, k, id, write));
        }
        if self.touches_at(world, a, n, id, write) {
            assert(0 <= n < n + 1 && self.touches_at(world, a, n, id, write));
        }
    }

    /// Touching in one of the first `n + 1` archetypes is touching in one
    /// of the first `n` or in archetype `n`.
    pub proof fn lemma_touches_step(self, world: WorldView, n: int, id: usize, write: bool)
        requires
            0 <= n,
        ensures
            self.touches(world, n + 1, id, write) <==> self.touches(world, n, id, write)
                || self.touches_in(
                world,
                n,
                world.archetypes[n].components.len() as int,
                id,
                write,
            ),
    {
        if self.touches(world, n + 1, id, write) {
            let a = choose|a: int|
                0 <= a < n + 1 && self.touches_in(
                    world,
                    a,
                    world.archetypes[a].components.len() as int,
                    id,
                    write,
                );
            if a < n {
                assert(0 <= a < n && self.touches_in(
                    world,
                    a,
                    world.archetypes[a].components.len() as int,
                    id,
                    write,
                ));
            }
        }
        if self.touches(world, n, id, write) {
            let a = choose|a: int|
                0 <= a < n && self.touches_in(
                    world,
                    a,
                    world.archetypes[a].components.len() as int,
                    id,
                    write,
                );
            assert(0 <= a < n + 1 && self.touches_in(
                world,
                a,
                world.archetypes[a].components.len() as int,
                id,
                write,
            ));
        }
        if self.touches_in(world, n, world.archetypes[n].components.len() as int, id, write) {
            assert(0 <= n < n + 1 && self.touches_in(
                world,
                n,
                world.archetypes[n].components.len() as int,
                id,
                write,
            ));
        }
    }

    /// The footprint of the query over the archetype components of the
    /// first `n` archetypes.
    pub open spec fn archetype_component_access(self, world: WorldView, n: int) -> AccessView {
        AccessView {
            reads_all: false,
            reads_and_writes: Set::new(|id: usize| self.touches(world, n, id, false)),
            writes: Set::new(|id: usize| self.touches(world, n, id, true)),
        }
    }
}

/// Collects the uses of components by the terms of a query.
pub fn shape_uses(fetches: &Vec<Fetch>, filters: &Vec<Filter>) -> (uses: Vec<Option<TermUse>>)
    ensures
        uses@ == (QueryShape { fetches: fetches@, filters: filters@ }).uses(),
{
    let ghost shape = QueryShape { fetches: fetches@, filters: filters@ };
    let mut uses: Vec<Option<TermUse>> = Vec::new();
    let mut i: usize = 0;
    while i < fetches.len()
        invariant
            i <= fetches@.len(),
            shape == (QueryShape { fetches: fetches@, filters: filters@ }),
            uses@.len() == i,
            forall|j: int| 0 <= j < i ==> #[trigger] uses@[j] == shape.uses()[j],
        decreases fetches@.len() - i,
    {
        uses.push(fetches[i].get_use());
        i += 1;
    }
    let mut i: usize = 0;
    while i < filters.len()
        invariant
            i <= filters@.len(),
            shape == (QueryShape { fetches: fetches@, filters: filters@ }),
            uses@.len() == fetches@.len() + i,
            forall|j: int| 0 <= j < uses@.len() ==> #[trigger] uses@[j] == shape.uses()[j],
        decreases filters@.len() - i,
    {
        uses.push(Some(filters[i].get_use()));
        i += 1;
    }
    assert(uses@ =~= shape.uses());
    uses
}

/// Builds the footprint of a list of uses, or finds what is wrong with
/// the first term that has something wrong with it.
pub fn check_uses(uses: &Vec<Option<TermUse>>, registry_len: usize) -> (r: Result<
    FilteredAccess,
    QueryError,
>)
    ensures
        match first_error(uses@, registry_len as nat, uses@.len() as int) {
            Some(error) => r == Err::<FilteredAccess, QueryError>(error),
            None => r matches Ok(access) && access@ == access_of(uses@, uses@.len() as int),
        },
{
    let mut access = FilteredAccess::new();
    let mut i: usize = 0;
    proof {
        assert(access@.access.reads_and_writes =~= access_of(uses@, 0).access.reads_and_writes);
        assert(access@.access.writes =~= access_of(uses@, 0).access.writes);
        assert(access@.with =~= access_of(uses@, 0).with);
        assert(access@.without =~= access_of(uses@, 0).without);
    }
    while i < uses.len()
        invariant
            i <= uses@.len(),
            first_error(uses@, registry_len as nat, i as int).is_none(),
            access@ == access_of(uses@, i as int),
        decreases uses@.len() - i,
    {
        match uses[i] {
            None => {
                proof {
                    assert forall|c: ComponentId, kind: UseKind|
                        used(uses@, i + 1, c, kind) == used(uses@, i as int, c, kind) by {
                        lemma_used_step(uses@, i as int, c, kind);
                    }
                    assert(access@.access.reads_and_writes =~= access_of(
                        uses@,
                        i + 1,
                    ).access.reads_and_writes);
                    assert(access@.access.writes =~= access_of(uses@, i + 1).access.writes);
                    assert(access@.with =~= access_of(uses@, i + 1).with);
                    assert(access@.without =~= access_of(uses@, i + 1).without);
                }
            },
            Some(u) => {
                if u.component >= registry_len {
                    assert(first_error(uses@, registry_len as nat, i + 1) == Some(
                        QueryError::UnknownComponent(u.component),
                    ));
                    proof {
                        lemma_first_error_stays(uses@, registry_len as nat, i + 1,
                            uses@.len() as int);
                    }
                    return Err(QueryError::UnknownComponent(u.component));
                }
                if u.access {
                    let collides = access.access().has_write(u.component) || (u.writes
                        && access.access().has_read(u.component));
                    if collides {
                        assert(first_error(uses@, registry_len as nat, i + 1) == Some(
                            QueryError::Conflict(u.component),
                        ));
                        proof {
                            lemma_first_error_stays(
                                uses@,
                                registry_len as nat,
                                i + 1,
                                uses@.len() as int,
                            );
                        }
                        return Err(QueryError::Conflict(u.component));
                    }
                    if u.writes {
                        if u.with {
                            access.add_write(u.component);
                        } else {
                            access.add_optional_write(u.component);
                        }
                    } else {
                        if u.with {
                            access.add_read(u.component);
                        } else {
                            access.add_optional_read(u.component);
                        }
                    }
                } else {
                    if u.with {
                        access.add_with(u.component);
                    }
                }
                if u.without {
                    access.add_without(u.component);
                }
                proof {
                    assert(uses@[i as int] == Some(u));
                    let ghost next = access_of(uses@, i + 1);
                    assert forall|c: ComponentId|
                        access@.access.reads_and_writes.contains(c)
                            == next.access.reads_and_writes.contains(c) by {
                        lemma_used_step(uses@, i as int, c, UseKind::Access);
                        assert(used_at(uses@, i as int, c, UseKind::Access) == (c == u.component
                            && u.has(UseKind::Access)));
                    }
                    assert forall|c: ComponentId|
                        access@.access.writes.contains(c) == next.access.writes.contains(c) by {
                        lemma_used_step(uses@, i as int, c, UseKind::Write);
                        assert(used_at(uses@, i as int, c, UseKind::Write) == (c == u.component
                            && u.has(UseKind::Write)));
                    }
                    assert forall|c: ComponentId| access@.with.contains(c)
                        == next.with.contains(c) by {
                        lemma_used_step(uses@, i as int, c, UseKind::With);
                        assert(used_at(uses@, i as int, c, UseKind::With) == (c == u.component
                            && u.has(UseKind::With)));
                    }
                    assert forall|c: ComponentId|
                        access@.without.contains(c) == next.without.contains(c) by {
                        lemma_used_step(uses@, i as int, c, UseKind::Without);
                        assert(used_at(uses@, i as int, c, UseKind::Without) == (c == u.component
                            && u.has(UseKind::Without)));
                    }
                    assert(access@.access.reads_and_writes =~= next.access.reads_and_writes);
                    assert(access@.access.writes =~= next.access.writes);
                    assert(access@.with =~= next.with);
                    assert(access@.without =~= next.without);
                }
            },
        }
        i += 1;
    }
    Ok(access)
}

/// Once a term has something wrong with it, later terms do not change
/// what is reported.
pub proof fn lemma_first_error_stays(uses: Seq<Option<TermUse>>, registry_len: nat, i: int, n: int)
    requires
        0 <= i <= n,
        first_error(uses, registry_len, i).is_some(),
    ensures
        first_error(uses, registry_len, n) == first_error(uses, registry_len, i),
    decreases n - i,
{
    if i < n {
        lemma_first_error_stays(uses, registry_len, i, n - 1);
    }
}

} // verus!
