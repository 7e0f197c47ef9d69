//! Function systems: a plain function over query results, wrapped into a
//! system with a declared footprint.

use vstd::prelude::*;
use core::marker::PhantomData;
use crate::component::{advance, Stored};
use crate::query::access::{Access, AccessView, FilteredAccessSet, FilteredAccessSetView};
use crate::query::shape::{items_view, Fetch, Filter, QueryError, QueryItem, QueryItemView,
    QueryShape};
use crate::query::state::QueryState;
use crate::system::commands::{Command, CommandQueue};
use crate::system::system::{check_system_counter_impl, System, SystemId};
use crate::query::write::{
    apply_writes,
    lemma_writes_same_placement,
    refused_writes,
    write_applies,
    ComponentWrite,
};
use crate::world::{World, WorldView};

verus! {

/// What one query of a system asks for.
pub struct QueryDescriptor {
    pub fetches: Vec<Fetch>,
    pub filters: Vec<Filter>,
}

impl QueryDescriptor {
    pub open spec fn view(&self) -> QueryShape {
        QueryShape { fetches: self.fetches@, filters: self.filters@ }
    }

    pub fn new(fetches: Vec<Fetch>, filters: Vec<Filter>) -> (descriptor: QueryDescriptor)
        ensures
            descriptor@ == (QueryShape { fetches: fetches@, filters: filters@ }),
    {
        QueryDescriptor { fetches, filters }
    }
}

/// What a function system is set up with: the queries that it asks for.
pub struct SystemConfig {
    pub queries: Vec<QueryDescriptor>,
}

impl SystemConfig {
    /// The shapes of the queries, in order.
    pub open spec fn view(&self) -> Seq<QueryShape> {
        Seq::new(self.queries@.len(), |q: int| self.queries@[q]@)
    }

    /// A configuration without queries.
    pub fn new() -> (config: SystemConfig)
        ensures
            config@ == Seq::<QueryShape>::empty(),
    {
        let config = SystemConfig { queries: Vec::new() };
        assert(config@ =~= Seq::<QueryShape>::empty());
        config
    }

    /// Adds a query.
    pub fn add_query(&mut self, fetches: Vec<Fetch>, filters: Vec<Filter>)
        ensures
            final(self)@ == old(self)@.push(QueryShape { fetches: fetches@, filters: filters@ }),
    {
        self.queries.push(QueryDescriptor { fetches, filters });
        assert(self@ =~= old(self)@.push(QueryShape { fetches: fetches@, filters: filters@ }));
    }
}

/// What the function of a system is given: for each query of the
/// system, in order, the items of the query.
pub struct SystemParams {
    pub queries: Vec<Vec<QueryItem>>,
}

impl SystemParams {
    pub open spec fn view(&self) -> Seq<Seq<QueryItemView>> {
        Seq::new(self.queries@.len(), |q: int| items_view(self.queries@[q]@))
    }
}

/// What the function of a system hands back besides its result.
pub struct SystemEffects {
    /// Writes to components, carried out when the function returns.
    pub writes: Vec<ComponentWrite>,
    /// Structural changes, carried out when the buffers are applied.
    pub commands: Vec<Command>,
}

impl SystemEffects {
    /// No write and no structural change.
    pub fn none() -> (effects: SystemEffects)
        ensures
            effects.writes@ == Seq::<ComponentWrite>::empty(),
            effects.commands@ == Seq::<Command>::empty(),
    {
        SystemEffects { writes: Vec::new(), commands: Vec::new() }
    }
}

/// The footprints of the first `n` queries over component types, as a set.
pub open spec fn access_set_of(shapes: Seq<QueryShape>, n: int) -> FilteredAccessSetView
    decreases n,
{
    if n <= 0 {
        FilteredAccessSetView::empty()
    } else {
        access_set_of(shapes, n - 1).add(shapes[n - 1].component_access())
    }
}

/// The query at place `q` cannot be set up: its shape is faulty, or its
/// footprint collides with that of an earlier query of the system.
pub open spec fn query_refused(shapes: Seq<QueryShape>, registry_len: nat, q: int) -> bool {
    shapes[q].error(registry_len).is_some() || !access_set_of(shapes, q).admits(
        shapes[q].component_access(),
    )
}

/// One of the first `n` queries cannot be set up.
pub open spec fn config_refused(shapes: Seq<QueryShape>, registry_len: nat, n: int) -> bool {
    exists|q: int| 0 <= q < n && query_refused(shapes, registry_len, q)
}

/// The union of the first `n` footprints.
pub open spec fn union_access(accesses: Seq<AccessView>, n: int) -> AccessView
    decreases n,
{
    if n <= 0 {
        AccessView::empty()
    } else {
        union_access(accesses, n - 1).extend(accesses[n - 1])
    }
}

/// What one footprint writes, the union writes; what one reads, the
/// union reads.
pub proof fn lemma_union_contains(accesses: Seq<AccessView>, n: int, q: int, id: usize)
    requires
        0 <= q < n,
    ensures
        accesses[q].has_write(id) ==> union_access(accesses, n).has_write(id),
        accesses[q].has_read(id) ==> union_access(accesses, n).has_read(id),
    decreases n,
{
    if q < n - 1 {
        lemma_union_contains(accesses, n - 1, q, id);
    }
}

/// What the union writes, one of the footprints writes; what the union
/// reads, one of them reads.
pub proof fn lemma_union_member(accesses: Seq<AccessView>, n: int, id: usize)
    ensures
        union_access(accesses, n).has_write(id) ==> exists|q: int|
            0 <= q < n && (#[trigger] accesses[q]).has_write(id),
        union_access(accesses, n).has_read(id) ==> exists|q: int|
            0 <= q < n && (#[trigger] accesses[q]).has_read(id),
    decreases n,
{
    if n > 0 {
        lemma_union_member(accesses, n - 1, id);
        let before = union_access(accesses, n - 1);
        if union_access(accesses, n).has_write(id) {
            if accesses[n - 1].has_write(id) {
            } else {
                assert(before.has_write(id));
                let q = choose|q: int| 0 <= q < n - 1 && (#[trigger] accesses[q]).has_write(id);
                assert(0 <= q < n && accesses[q].has_write(id));
            }
        }
        if union_access(accesses, n).has_read(id) {
            if accesses[n - 1].has_read(id) {
            } else {
                assert(before.has_read(id));
                let q = choose|q: int| 0 <= q < n - 1 && (#[trigger] accesses[q]).has_read(id);
                assert(0 <= q < n && accesses[q].has_read(id));
            }
        }
    }
}

/// The footprints of the queries over all archetypes of `world`, in
/// the order of the queries.
pub open spec fn accesses_over(shapes: Seq<QueryShape>, world: WorldView) -> Seq<AccessView> {
    Seq::new(
        shapes.len(),
        |q: int| shapes[q].archetype_component_access(world, world.archetypes.len() as int),
    )
}

/// Where each footprint has grown, their union has grown.
pub proof fn lemma_union_covers(earlier: Seq<AccessView>, later: Seq<AccessView>)
    requires
        later.len() == earlier.len(),
        forall|q: int| 0 <= q < earlier.len() ==> (#[trigger] later[q]).covers(earlier[q]),
    ensures
        union_access(later, later.len() as int).covers(
            union_access(earlier, earlier.len() as int),
        ),
{
    let n = earlier.len() as int;
    let before = union_access(earlier, n);
    let after = union_access(later, n);
    assert forall|id: usize| before.has_read(id) implies #[trigger] after.has_read(id) by {
        lemma_union_member(earlier, n, id);
        let q = choose|q: int| 0 <= q < n && (#[trigger] earlier[q]).has_read(id);
        assert(later[q].covers(earlier[q]));
        assert(later[q].has_read(id));
        lemma_union_contains(later, n, q, id);
    }
    assert forall|id: usize| before.has_write(id) implies #[trigger] after.has_write(id) by {
        lemma_union_member(earlier, n, id);
        let q = choose|q: int| 0 <= q < n && (#[trigger] earlier[q]).has_write(id);
        assert(later[q].covers(earlier[q]));
        assert(later[q].has_write(id));
        lemma_union_contains(later, n, q, id);
    }
}

/// The state that a function system keeps for its parameters: the state
/// of each of its queries, and the structural changes that it has asked
/// for.
pub struct ParamState {
    pub(crate) queries: Vec<QueryState>,
    pub(crate) commands: CommandQueue,
}

impl ParamState {
    /// The shapes of the queries, in order.
    pub closed spec fn shapes(&self) -> Seq<QueryShape> {
        Seq::new(self.queries@.len(), |q: int| self.queries@[q].shape())
    }

    /// The footprints of the queries over archetype components, in order.
    pub closed spec fn accesses(&self) -> Seq<AccessView> {
        Seq::new(self.queries@.len(), |q: int| self.queries@[q].access())
    }

    /// The structural changes asked for and not yet carried out.
    pub closed spec fn buffered(&self) -> Seq<Command> {
        self.commands@
    }

    /// Every query was set up for a store that showed `world`, or an
    /// earlier state of it.
    pub closed spec fn valid_for(&self, world: WorldView) -> bool {
        forall|q: int| 0 <= q < self.queries@.len()
            ==> (#[trigger] self.queries@[q]).valid_for(world)
    }

    /// Every query has seen all archetypes of `world`.
    pub closed spec fn up_to_date(&self, world: WorldView) -> bool {
        forall|q: int|
            0 <= q < self.queries@.len() ==> (#[trigger] self.queries@[q]).generation()
                == world.archetypes.len()
    }

    /// The footprints of the queries are those of their shapes over the
    /// archetypes of `world`.
    pub proof fn lemma_accesses(&self, world: WorldView)
        requires
            self.valid_for(world),
            self.up_to_date(world),
        ensures
            self.accesses().len() == self.shapes().len(),
            forall|q: int|
                0 <= q < self.shapes().len() ==> #[trigger] self.accesses()[q]
                    == self.shapes()[q].archetype_component_access(
                    world,
                    world.archetypes.len() as int,
                ),
    {
        assert forall|q: int| 0 <= q < self.shapes().len() implies #[trigger] self.accesses()[q]
            == self.shapes()[q].archetype_component_access(world,
                world.archetypes.len() as int) by {
            self.queries@[q].lemma_valid(world);
        }
    }

    /// A state that is valid for a view is valid for every later view.
    pub proof fn lemma_valid_extends(&self, earlier: WorldView, later: WorldView)
        requires
            self.valid_for(earlier),
            later.extends(earlier),
        ensures
            self.valid_for(later),
    {
        assert forall|q: int| 0 <= q < self.queries@.len() implies (
        #[trigger] self.queries@[q]).valid_for(later) by {
            self.queries@[q].lemma_valid_extends(earlier, later);
        }
    }

    /// `params` holds, for each query, the items of the query over
    /// `world`, for a system that last ran at `system_counter`.
    pub open spec fn is_param(
        shapes: Seq<QueryShape>,
        world: WorldView,
        system_counter: u32,
        global_system_counter: u32,
        params: Seq<Seq<QueryItemView>>,
    ) -> bool {
        &&& params.len() == shapes.len()
        &&& forall|q: int|
            0 <= q < shapes.len() ==> #[trigger] params[q] == shapes[q].items(
                world,
                world.archetypes.len() as int,
                system_counter,
                global_system_counter,
            )
    }

    /// Runs the queries of the system on the store.
    pub fn get_param(&mut self, world: &World, system_counter: u32,
        global_system_counter: u32) -> (params:
        SystemParams)
        requires
            world.wf(),
            old(self).valid_for(world@),
        ensures
            final(self).valid_for(world@),
            final(self).up_to_date(world@),
            final(self).shapes() == old(self).shapes(),
            final(self).buffered() == old(self).buffered(),
            Self::is_param(
                old(self).shapes(),
                world@,
                system_counter,
                global_system_counter,
                params@,
            ),
    {
        let mut queries: Vec<Vec<QueryItem>> = Vec::new();
        let mut q: usize = 0;
        while q < self.queries.len()
            invariant
                q <= self.queries@.len(),
                world.wf(),
                self.queries@.len() == old(self).queries@.len(),
                self.commands == old(self).commands,
                queries@.len() == q,
                forall|x: int|
                    0 <= x < self.queries@.len() ==> (#[trigger] self.queries@[x]).valid_for(world@)
                        && self.queries@[x].shape() == old(self).queries@[x].shape(),
                forall|x: int|
                    0 <= x < q ==> (#[trigger] self.queries@[x]).generation()
                        == world@.archetypes.len(),
                forall|x: int|
                    0 <= x < q ==> items_view(#[trigger] queries@[x]@)
                        == old(self).queries@[x].shape().items(
                        world@,
                        world@.archetypes.len() as int,
                        system_counter,
                        global_system_counter,
                    ),
            decreases self.queries@.len() - q,
        {
            let items = self.queries[q].iter(world, system_counter, global_system_counter);
            queries.push(items);
            q += 1;
        }
        let params = SystemParams { queries };
        proof {
            assert(self.shapes() =~= old(self).shapes());
            assert forall|x: int| 0 <= x < old(self).shapes().len() implies #[trigger] params@[x]
                == old(self).shapes()[x].items(
                world@,
                world@.archetypes.len() as int,
                system_counter,
                global_system_counter,
            ) by {
                assert(items_view(queries@[x]@) == old(self).queries@[x].shape().items(
                    world@,
                    world@.archetypes.len() as int,
                    system_counter,
                    global_system_counter,
                ));
            }
        }
        params
    }

    /// The union of the footprints of the queries over archetype components.
    pub fn combined_access(&self) -> (access: Access)
        ensures
            access@ == union_access(self.accesses(), self.accesses().len() as int),
    {
        let mut access = Access::new();
        let mut q: usize = 0;
        while q < self.queries.len()
            invariant
                q <= self.queries@.len(),
                access@ == union_access(self.accesses(), q as int),
            decreases self.queries@.len() - q,
        {
            access.extend(self.queries[q].archetype_component_access());
            q += 1;
        }
        access
    }

    /// Takes note of the archetypes that the store has created since the
    /// queries last looked. The footprints of the queries only grow.
    pub fn update_archetypes(&mut self, world: &World)
        requires
            world.wf(),
            old(self).valid_for(world@),
        ensures
            final(self).valid_for(world@),
            final(self).up_to_date(world@),
            final(self).shapes() == old(self).shapes(),
            final(self).buffered() == old(self).buffered(),
            final(self).accesses().len() == old(self).accesses().len(),
            forall|q: int|
                0 <= q < old(self).accesses().len()
                    ==> (#[trigger] final(self).accesses()[q]).covers(
                    old(self).accesses()[q],
                ),
    {
        let mut q: usize = 0;
        while q < self.queries.len()
            invariant
                q <= self.queries@.len(),
                world.wf(),
                self.queries@.len() == old(self).queries@.len(),
                self.commands == old(self).commands,
                forall|x: int|
                    0 <= x < self.queries@.len() ==> (#[trigger] self.queries@[x]).valid_for(world@)
                        && self.queries@[x].shape() == old(self).queries@[x].shape()
                        && self.queries@[x].access().covers(old(self).queries@[x].access()),
                forall|x: int|
                    0 <= x < q ==> (#[trigger] self.queries@[x]).generation()
                        == world@.archetypes.len(),
            decreases self.queries@.len() - q,
        {
            self.queries[q].update_archetypes(world);
            q += 1;
        }
        assert(self.shapes() =~= old(self).shapes());
    }

    /// Carries out the writes that the function of the system asked
    /// for, in order. A write is refused unless the query that it names
    /// has write access to the component. Returns how many were refused.
    pub fn apply_writes(
        &self,
        world: &mut World,
        writes: &Vec<ComponentWrite>,
        system_counter: u32,
        tick: u32,
    ) -> (refused: usize)
        requires
            old(world).wf(),
            self.valid_for(old(world)@),
        ensures
            final(world).wf(),
            self.valid_for(final(world)@),
            final(world)@ == apply_writes(
                old(world)@,
                self.accesses(),
                writes@,
                writes@.len() as int,
                tick,
            ),
            refused == refused_writes(
                old(world)@,
                self.accesses(),
                writes@,
                writes@.len() as int,
                tick,
            ),
    {
        let mut refused: usize = 0;
        let mut i: usize = 0;
        while i < writes.len()
            invariant
                i <= writes@.len(),
                world.wf(),
                self.valid_for(world@),
                world@ == apply_writes(old(world)@, self.accesses(), writes@, i as int, tick),
                refused == refused_writes(old(world)@, self.accesses(), writes@, i as int, tick),
                refused <= i,
            decreases writes@.len() - i,
        {
            let write = writes[i];
            let ghost before = world@;
            let mut applies = false;
            if write.query < self.queries.len() {
                match world.archetype_component_id(write.entity, write.component_id) {
                    Some(id) => {
                        if self.queries[write.query].archetype_component_access().has_write(id) {
                            applies = true;
                        }
                    },
                    None => {},
                }
            }
            assert(applies == write_applies(before, self.accesses(), write));
            if applies {
                proof {
                    assert forall|cell: Stored|
                        self.valid_for(
                            #[trigger] before.with_cell(write.entity, write.component_id, cell),
                        ) by {
                        let after = before.with_cell(write.entity, write.component_id, cell);
                        assert(after.extends(before));
                        self.lemma_valid_extends(before, after);
                    }
                }
                match world.get_mut_manual(write.entity, write.component_id, system_counter, tick) {
                    Some(mut m) => {
                        m.set(write.value);
                    },
                    None => {},
                }
            } else {
                refused = refused + 1;
            }
            i += 1;
        }
        refused
    }
}

/// What a function system keeps besides the state of its parameters.
pub struct SystemState {
    pub(crate) id: SystemId,
    pub(crate) name: String,
    pub(crate) component_access_set: FilteredAccessSet,
    pub(crate) archetype_component_access: Access,
    // Once a system is marked as bound to one thread it stays so.
    is_send: bool,
    pub(crate) system_counter: u32,
}

impl SystemState {
    /// The global counter at which the system last ran.
    pub closed spec fn counter(&self) -> u32 {
        self.system_counter
    }

    /// Whether the system may run on any thread.
    pub closed spec fn send(&self) -> bool {
        self.is_send
    }

    /// The footprints of the parameters over component types.
    pub closed spec fn access_set(&self) -> FilteredAccessSetView {
        self.component_access_set@
    }

    /// The footprint of the system over archetype components.
    pub closed spec fn access(&self) -> AccessView {
        self.archetype_component_access@
    }

    /// The identifier of the system.
    pub closed spec fn spec_id(&self) -> SystemId {
        self.id
    }

    /// The name of the system.
    pub closed spec fn spec_name(&self) -> Seq<char> {
        self.name@
    }

    /// The state of a system that has never run: its counter is the
    /// largest there is, so that on its first run it sees everything
    /// that was written up to then as added and changed.
    pub fn new(name: String, id: SystemId) -> (state: SystemState)
        ensures
            state.counter() == u32::MAX,
            state.send(),
            state.spec_id() == id,
            state.spec_name() == name@,
            state.access_set() == FilteredAccessSetView::empty(),
            state.access() == AccessView::empty(),
    {
        SystemState {
            name,
            archetype_component_access: Access::new(),
            component_access_set: FilteredAccessSet::new(),
            is_send: true,
            id,
            system_counter: u32::MAX,
        }
    }

    /// Whether the system may run on any thread.
    #[inline]
    pub fn is_send(&self) -> (r: bool)
        ensures
            r == self.send(),
    {
        self.is_send
    }

    /// Binds the system to one thread, for good.
    #[inline]
    pub fn set_non_send(&mut self)
        ensures
            !final(self).send(),
            final(self).counter() == old(self).counter(),
            final(self).access_set() == old(self).access_set(),
            final(self).access() == old(self).access(),
            final(self).spec_id() == old(self).spec_id(),
            final(self).spec_name() == old(self).spec_name(),
    {
        self.is_send = false;
    }
}

/// Wraps the input of a system function that takes one.
pub struct In<In>(pub In);

/// Marks a system function that takes an input.
pub struct InputMarker;

/// A function that can be the body of a function system: it is given the
/// results of the system's queries and hands back its result and the
/// writes and structural changes that it asks for.
pub trait SystemParamFunction<In, Out, Marker>: Sized {
    /// The function can be called with this input and these parameters.
    spec fn callable(&self, input: In, params: &SystemParams) -> bool;

    /// The function may return `result` for this input and these parameters.
    spec fn produces(&self, input: In, params: &SystemParams, result: (Out, SystemEffects)) -> bool;

    /// Runs the queries of the system on the store and calls the
    /// function on their results.
    fn run(
        &self,
        input: In,
        state: &mut ParamState,
        system_state: &SystemState,
        world: &World,
        global_system_counter: u32,
    ) -> (result: (Out, SystemEffects))
        requires
            world.wf(),
            old(state).valid_for(world@),
            forall|params: &SystemParams| #[trigger] self.callable(input, params),
        ensures
            final(state).valid_for(world@),
            final(state).up_to_date(world@),
            final(state).shapes() == old(state).shapes(),
            final(state).buffered() == old(state).buffered(),
            exists|params: &SystemParams|
                ParamState::is_param(
                    old(state).shapes(),
                    world@,
                    system_state.counter(),
                    global_system_counter,
                    params@,
                ) && #[trigger] self.produces(input, params, result),
    ;
}

impl<Out, F: Fn(&SystemParams) -> (Out, SystemEffects)> SystemParamFunction<(), Out, ()> for F {
    open spec fn callable(&self, input: (), params: &SystemParams) -> bool {
        self.requires((params,))
    }

    open spec fn produces(&self, input: (), params: &SystemParams, result: (Out,
        SystemEffects)) -> bool {
        self.ensures((params,), result)
    }

    #[inline]
    fn run(
        &self,
        _input: (),
        state: &mut ParamState,
        system_state: &SystemState,
        world: &World,
        global_system_counter: u32,
    ) -> (result: (Out, SystemEffects)) {
        let params = state.get_param(world, system_state.system_counter, global_system_counter);
        assert(self.callable((), &params));
        let result = self(&params);
        assert(self.produces((), &params, result));
        result
    }
}

impl<Input, Out, F: Fn(In<Input>, &SystemParams) -> (Out, SystemEffects)> SystemParamFunction<
    Input,
    Out,
    InputMarker,
> for F {
    open spec fn callable(&self, input: Input, params: &SystemParams) -> bool {
        self.requires((In(input), params))
    }

    open spec fn produces(&self, input: Input, params: &SystemParams, result: (Out,
        SystemEffects)) -> bool {
        self.ensures((In(input), params), result)
    }

    #[inline]
    fn run(
        &self,
        input: Input,
        state: &mut ParamState,
        system_state: &SystemState,
        world: &World,
        global_system_counter: u32,
    ) -> (result: (Out, SystemEffects)) {
        let params = state.get_param(world, system_state.system_counter, global_system_counter);
        let ghost given = input;
        assert(self.callable(given, &params));
        let result = self(In(input), &params);
        assert(self.produces(given, &params, result));
        result
    }
}

/// Turns a function, or a system, into a system.
pub trait IntoSystem<Params, SystemType: System>: Sized {
    /// `system` is what this value is turned into when it is given the
    /// name and the identifier.
    spec fn turns_into(self, name: Seq<char>, id: SystemId, system: SystemType) -> bool;

    fn system(self, name: String, id: SystemId) -> (system: SystemType)
        ensures
            self.turns_into(name@, id, system),
    ;
}

// A system is turned into itself.
impl<Sys: System> IntoSystem<(), Sys> for Sys {
    open spec fn turns_into(self, name: Seq<char>, id: SystemId, system: Sys) -> bool {
        system == self
    }

    fn system(self, name: String, id: SystemId) -> (system: Sys)
        ensures
            system == self,
    {
        self
    }
}

/// A system whose body is a function.
pub struct FunctionSystem<In, Out, Marker, F> {
    pub(crate) func: F,
    pub(crate) param_state: Option<ParamState>,
    pub(crate) system_state: SystemState,
    pub(crate) config: Option<SystemConfig>,
    pub(crate) marker: PhantomData<(In, Out, Marker)>,
}

impl<In, Out, Marker, F> FunctionSystem<In, Out, Marker, F> {
    /// The queries that the system is to be set up with, while it has
    /// not been set up.
    pub closed spec fn configuration(&self) -> Option<Seq<QueryShape>> {
        match self.config {
            Some(config) => Some(config@),
            None => None,
        }
    }

    /// The shapes of the queries of the system, once it has been set up.
    pub closed spec fn shapes(&self) -> Seq<QueryShape> {
        self.param_state.unwrap().shapes()
    }

    /// The footprints of the queries of the system over archetype
    /// components, once it has been set up.
    pub closed spec fn accesses(&self) -> Seq<AccessView> {
        self.param_state.unwrap().accesses()
    }

    /// The function of the system.
    pub closed spec fn function(&self) -> F {
        self.func
    }

    /// What the system keeps besides the state of its parameters.
    pub closed spec fn state(&self) -> SystemState {
        self.system_state
    }

    /// Exactly one of the configuration and the state of the parameters
    /// is there.
    pub closed spec fn wf(&self) -> bool {
        self.config.is_some() != self.param_state.is_some()
    }

    /// Changes what the system is to be set up with. Only a system that
    /// has not been set up has a configuration.
    pub fn config<G: FnOnce(&mut SystemConfig)>(self, f: G) -> (system: Self)
        requires
            self.configuration().is_some(),
            forall|config: &mut SystemConfig| #[trigger] f.requires((config,)),
        ensures
            system.function() == self.function(),
            system.state() == self.state(),
            system.wf() == self.wf(),
            system.configuration().is_some(),
            exists|config: &mut SystemConfig|
                config@ == self.configuration().unwrap() && #[trigger] f.ensures((config,), ())
                    && final(config)@ == system.configuration().unwrap(),
    {
        let mut system = self;
        match system.config {
            Some(config) => {
                let mut config = config;
                f(&mut config);
                system.config = Some(config);
            },
            None => {},
        }
        system
    }
}

impl<In, Out, Marker, F: SystemParamFunction<In, Out, Marker>> IntoSystem<
    (In, Out, Marker),
    FunctionSystem<In, Out, Marker, F>,
> for F {
    /// The system has this function as its body, an empty configuration,
    /// the name and the identifier given, and has never run.
    open spec fn turns_into(
        self,
        name: Seq<char>,
        id: SystemId,
        system: FunctionSystem<In, Out, Marker, F>,
    ) -> bool {
        &&& system.wf()
        &&& !system.initialized()
        &&& system.function() == self
        &&& system.configuration() == Some(Seq::<QueryShape>::empty())
        &&& system.system_counter() == u32::MAX
        &&& system.system_id() == id
        &&& system.system_name() == name
        &&& system.state().spec_id() == id
        &&& system.state().spec_name() == name
        &&& system.state().send()
    }

    fn system(self, name: String, id: SystemId) -> (system: FunctionSystem<In, Out, Marker, F>)
        ensures
            system.wf(),
            !system.initialized(),
            system.function() == self,
            system.configuration() == Some(Seq::<QueryShape>::empty()),
            system.system_counter() == u32::MAX,
            system.state().spec_id() == id,
            system.state().spec_name() == name@,
            system.state().send(),
    {
        FunctionSystem {
            func: self,
            param_state: None,
            config: Some(SystemConfig::new()),
            system_state: SystemState::new(name, id),
            marker: PhantomData,
        }
    }
}

impl<In, Out, Marker, F: SystemParamFunction<In, Out, Marker>> FunctionSystem<In, Out, Marker, F> {
    /// The footprint that a system that was set up declares is the union
    /// of the footprints of its queries.
    pub proof fn lemma_declared_access(&self, world: WorldView)
        requires
            self.valid_for(world),
        ensures
            self.state().access() == union_access(self.accesses(), self.accesses().len() as int),
    {
    }

    /// The name and the identifier of the system are those that its
    /// state holds.
    pub proof fn lemma_name_and_id(&self)
        ensures
            self.system_name() == self.state().spec_name(),
            self.system_id() == self.state().spec_id(),
    {
    }

    /// The footprints of the queries of a system that is up to date are
    /// those of their shapes over all archetypes of the store, and the
    /// footprint that the system declares is their union.
    pub proof fn lemma_up_to_date(&self, world: WorldView)
        requires
            self.valid_for(world),
            self.up_to_date(world),
        ensures
            self.accesses().len() == self.shapes().len(),
            forall|q: int|
                0 <= q < self.shapes().len() ==> #[trigger] self.accesses()[q]
                    == self.shapes()[q].archetype_component_access(
                    world,
                    world.archetypes.len() as int,
                ),
            self.state().access() == union_access(self.accesses(), self.accesses().len() as int),
    {
        self.param_state.unwrap().lemma_accesses(world);
    }

    /// Two systems with the same function can be run with the same inputs.
    pub proof fn lemma_accepts(&self, other: &Self)
        requires
            self.function() == other.function(),
        ensures
            forall|input: In| self.accepts(input) ==> #[trigger] other.accepts(input),
    {
        assert forall|input: In| self.accepts(input) implies #[trigger] other.accepts(input) by {
            assert forall|params: &SystemParams| #[trigger]
                other.function().callable(input, params) by {
                assert(self.function().callable(input, params));
            }
        }
    }

    /// Sets up the state of each query, or finds what is wrong with the
    /// first query that has something wrong with it: a term that names
    /// an unknown component type or aliases another term, or an access
    /// that collides with an earlier query of the system.
    fn init_params(world: &World, config: &SystemConfig) -> (r: Result<
        (ParamState, FilteredAccessSet),
        QueryError,
    >)
        requires
            world.wf(),
        ensures
            r.is_err() <==> config_refused(config@, world@.registry.len(), config@.len() as int),
            r matches Ok(done) ==> done.0.valid_for(world@) && done.0.up_to_date(world@)
                && done.0.shapes() == config@ && done.0.buffered() == Seq::<Command>::empty()
                && done.1@ == access_set_of(config@, config@.len() as int),
            r matches Err(error) ==> exists|q: int|
                0 <= q < config@.len()
                    && #[trigger] query_refused(config@, world@.registry.len(), q)
                    && !config_refused(config@, world@.registry.len(), q)
                        && (match config@[q].error(
                    world@.registry.len(),
                ) {
                    Some(fault) => error == fault,
                    None => error is Conflict,
                }),
    {
        let mut queries: Vec<QueryState> = Vec::new();
        let mut set = FilteredAccessSet::new();
        let mut q: usize = 0;
        while q < config.queries.len()
            invariant
                q <= config.queries@.len(),
                world.wf(),
                queries@.len() == q,
                set@ == access_set_of(config@, q as int),
                !config_refused(config@, world@.registry.len(), q as int),
                forall|x: int|
                    0 <= x < q ==> (#[trigger] queries@[x]).valid_for(world@)
                        && queries@[x].generation()
                        == world@.archetypes.len() && queries@[x].shape() == config@[x],
            decreases config.queries@.len() - q,
        {
            let descriptor = &config.queries[q];
            let fetches = copy_fetches(&descriptor.fetches);
            let filters = copy_filters(&descriptor.filters);
            assert(config@[q as int] == (QueryShape { fetches: fetches@, filters: filters@ }));
            let state = match QueryState::new(world, fetches, filters) {
                Ok(state) => state,
                Err(error) => {
                    assert(query_refused(config@, world@.registry.len(), q as int));
                    return Err(error);
                },
            };
            proof {
                state.lemma_valid(world@);
            }
            match set.get_conflict(state.component_access()) {
                Some(component_id) => {
                    assert(query_refused(config@, world@.registry.len(), q as int));
                    return Err(QueryError::Conflict(component_id));
                },
                None => {},
            }
            set.add(state.component_access().copy());
            queries.push(state);
            proof {
                assert(!query_refused(config@, world@.registry.len(), q as int));
                assert(!config_refused(config@, world@.registry.len(), q + 1)) by {
                    if config_refused(config@, world@.registry.len(), q + 1) {
                        let x = choose|x: int|
                            0 <= x < q + 1 && query_refused(config@, world@.registry.len(), x);
                        if x < q {
                            assert(config_refused(config@, world@.registry.len(), q as int));
                        }
                    }
                }
            }
            q += 1;
        }
        let state = ParamState { queries, commands: CommandQueue::new() };
        assert(state.shapes() =~= config@);
        Ok((state, set))
    }
}

/// Copies a list of fetch terms.
pub fn copy_fetches(fetches: &Vec<Fetch>) -> (r: Vec<Fetch>)
    ensures
        r@ == fetches@,
{
    let mut r: Vec<Fetch> = Vec::new();
    let mut i: usize = 0;
    while i < fetches.len()
        invariant
            i <= fetches@.len(),
            r@ == fetches@.subrange(0, i as int),
        decreases fetches@.len() - i,
    {
        r.push(fetches[i]);
        assert(r@ =~= fetches@.subrange(0, i + 1));
        i += 1;
    }
    assert(r@ =~= fetches@);
    r
}

/// Copies a list of filter terms.
pub fn copy_filters(filters: &Vec<Filter>) -> (r: Vec<Filter>)
    ensures
        r@ == filters@,
{
    let mut r: Vec<Filter> = Vec::new();
    let mut i: usize = 0;
    while i < filters.len()
        invariant
            i <= filters@.len(),
            r@ == filters@.subrange(0, i as int),
        decreases filters@.len() - i,
    {
        r.push(filters[i]);
        assert(r@ =~= filters@.subrange(0, i + 1));
        i += 1;
    }
    assert(r@ =~= filters@);
    r
}

impl<In, Out, Marker, F: SystemParamFunction<In, Out, Marker>> System for FunctionSystem<
    In,
    Out,
    Marker,
    F,
> {
    type In = In;

    type Out = Out;

    closed spec fn valid_for(&self, world: WorldView) -> bool {
        &&& self.config.is_none()
        &&& self.param_state.is_some()
        &&& self.param_state.unwrap().valid_for(world)
        &&& self.system_state.access() == union_access(
            self.param_state.unwrap().accesses(),
            self.param_state.unwrap().accesses().len() as int,
        )
    }

    closed spec fn initialized(&self) -> bool {
        self.config.is_none()
    }

    closed spec fn system_counter(&self) -> u32 {
        self.system_state.counter()
    }

    closed spec fn buffered(&self) -> Seq<Command> {
        match self.param_state {
            Some(state) => state.buffered(),
            None => Seq::empty(),
        }
    }

    open spec fn accepts(&self, input: In) -> bool {
        forall|params: &SystemParams| #[trigger] self.function().callable(input, params)
    }

    /// The function was given the items of the queries over the store as
    /// it was, for a system that last ran at the counter of this system
    /// and runs at the global counter of the store. The writes that the
    /// function asked for were carried out at that counter, on the store
    /// with its global counter one further, through the footprints of
    /// the queries over all archetypes. The structural changes that it
    /// asked for wait behind those that waited already.
    open spec fn run_result(
        &self,
        input: In,
        before: WorldView,
        ran: WorldView,
        buffered: Seq<Command>,
        out: Out,
    ) -> bool {
        exists|params: &SystemParams, result: (Out, SystemEffects)|
            {
                &&& ParamState::is_param(
                    self.shapes(),
                    before,
                    self.system_counter(),
                    before.global_system_counter,
                    params@,
                )
                &&& #[trigger] self.function().produces(input, params, result)
                &&& out == result.0
                &&& ran == apply_writes(
                    WorldView {
                        global_system_counter: advance(before.global_system_counter, 1),
                        ..before
                    },
                    accesses_over(self.shapes(), before),
                    result.1.writes@,
                    result.1.writes@.len() as int,
                    before.global_system_counter,
                )
                &&& buffered == self.buffered() + result.1.commands@
            }
    }

    closed spec fn system_name(&self) -> Seq<char> {
        self.system_state.spec_name()
    }

    closed spec fn system_id(&self) -> SystemId {
        self.system_state.spec_id()
    }

    closed spec fn up_to_date(&self, world: WorldView) -> bool {
        self.param_state matches Some(state) && state.up_to_date(world)
    }

    /// The set-up is refused exactly when one of the queries of the
    /// configuration cannot be set up, with the fault of the shape of the
    /// first such query, or a conflict where its shape has no fault.
    open spec fn initialize_result(&self, world: WorldView, r: Result<(), QueryError>) -> bool {
        let shapes = self.configuration().unwrap();
        &&& r.is_err() <==> config_refused(shapes, world.registry.len(), shapes.len() as int)
        &&& r matches Err(error) ==> exists|q: int|
            0 <= q < shapes.len() && #[trigger] query_refused(shapes, world.registry.len(), q)
                && !config_refused(shapes, world.registry.len(), q) && (match shapes[q].error(
                world.registry.len(),
            ) {
                Some(fault) => error == fault,
                None => error is Conflict,
            })
    }

    #[inline]
    fn name(&self) -> (name: String)
        ensures
            name@ == self.state().spec_name(),
    {
        self.system_state.name.clone()
    }

    #[inline]
    fn id(&self) -> (id: SystemId)
        ensures
            id == self.state().spec_id(),
    {
        self.system_state.id
    }

    /// The footprint of the system over component types stays as it is;
    /// its footprint over archetype components grows by what its queries
    /// touch in the archetypes that are new to it.
    fn update_archetypes(&mut self, world: &World)
        ensures
            final(self).function() == old(self).function(),
            final(self).shapes() == old(self).shapes(),
            final(self).state().access_set() == old(self).state().access_set(),
            final(self).state().access().covers(old(self).state().access()),
            final(self).state().send() == old(self).state().send(),
    {
        match &mut self.param_state {
            Some(state) => {
                let ghost earlier = state.accesses();
                state.update_archetypes(world);
                proof {
                    lemma_union_covers(earlier, state.accesses());
                }
                self.system_state.archetype_component_access = state.combined_access();
            },
            None => {},
        }
        proof {
            old(self).lemma_accepts(self);
        }
    }

    #[inline]
    fn component_access(&self) -> (access: &Access)
        ensures
            access@ == self.state().access_set().combined_access,
    {
        self.system_state.component_access_set.combined_access()
    }

    #[inline]
    fn archetype_component_access(&self) -> (access: &Access)
        ensures
            access@ == self.state().access(),
    {
        &self.system_state.archetype_component_access
    }

    #[inline]
    fn is_send(&self) -> (r: bool)
        ensures
            r == self.state().send(),
    {
        self.system_state.is_send
    }

    fn run_unsafe(&mut self, input: In, world: &mut World) -> (out: Out)
        ensures
            final(self).function() == old(self).function(),
            final(self).shapes() == old(self).shapes(),
            exists|params: &SystemParams, result: (Out, SystemEffects)|
                {
                    &&& ParamState::is_param(
                        old(self).shapes(),
                        old(world)@,
                        old(self).system_counter(),
                        old(world)@.global_system_counter,
                        params@,
                    )
                    &&& #[trigger] old(self).function().produces(input, params, result)
                    &&& out == result.0
                    &&& final(world)@ == apply_writes(
                        WorldView {
                            global_system_counter: advance(old(world)@.global_system_counter, 1),
                            ..old(world)@
                        },
                        final(self).accesses(),
                        result.1.writes@,
                        result.1.writes@.len() as int,
                        old(world)@.global_system_counter,
                    )
                    &&& final(self).buffered() == old(self).buffered() + result.1.commands@
                },
    {
        let global_system_counter: u32 = world.increment_global_system_counter();
        let ghost bumped = world@;
        let system_counter: u32 = self.system_state.system_counter;
        assert(forall|params: &SystemParams| #[trigger] self.func.callable(input, params)) by {
            assert forall|params: &SystemParams| #[trigger] self.func.callable(input, params) by {
                assert(old(self).function().callable(input, params));
            }
        }
        match &mut self.param_state {
            Some(state) => {
                proof {
                    assert(bumped.extends(old(world)@));
                    state.lemma_valid_extends(old(world)@, bumped);
                }
                let ghost given = input;
                let result = self.func.run(
                    input,
                    state,
                    &self.system_state,
                    &*world,
                    global_system_counter,
                );
                let _ = state.apply_writes(
                    world,
                    &result.1.writes,
                    system_counter,
                    global_system_counter,
                );
                state.commands.extend(&result.1.commands);
                self.system_state.archetype_component_access = state.combined_access();
                self.system_state.system_counter = global_system_counter;
                proof {
                    lemma_writes_same_placement(
                        bumped,
                        state.accesses(),
                        result.1.writes@,
                        result.1.writes@.len() as int,
                        global_system_counter,
                    );
                    let params = choose|params: &SystemParams|
                        ParamState::is_param(
                            old(self).shapes(),
                            bumped,
                            system_counter,
                            global_system_counter,
                            params@,
                        ) && #[trigger] self.func.produces(given, params, result);
                    lemma_params_ignore_counter(
                        old(self).shapes(),
                        old(world)@,
                        bumped,
                        system_counter,
                        global_system_counter,
                        params@,
                    );
                    assert(old(self).function().produces(given, params, result));
                    state.lemma_accesses(bumped);
                    assert forall|q: int| 0 <= q < old(self).shapes().len()
                        implies #[trigger] state.accesses()[q]
                        == accesses_over(old(self).shapes(), old(world)@)[q] by {
                        crate::laws::lemma_access_of_same_archetypes(
                            old(self).shapes()[q],
                            bumped,
                            old(world)@,
                            bumped.archetypes.len() as int,
                        );
                    }
                    assert(state.accesses() =~= accesses_over(old(self).shapes(), old(world)@));
                }
                proof {
                    old(self).lemma_accepts(self);
                }
                result.0
            },
            None => vstd::pervasive::unreached(),
        }
    }

    #[inline]
    fn apply_buffers(&mut self, world: &mut World)
        ensures
            final(self).function() == old(self).function(),
            final(self).shapes() == old(self).shapes(),
    {
        match &mut self.param_state {
            Some(state) => {
                state.commands.apply(world);
                proof {
                    state.lemma_valid_extends(old(world)@, world@);
                }
            },
            None => {},
        }
        proof {
            old(self).lemma_accepts(self);
        }
    }

    #[inline]
    fn initialize(&mut self, world: &mut World) -> (r: Result<(), QueryError>)
        ensures
            final(self).function() == old(self).function(),
            r.is_err() <==> config_refused(
                old(self).configuration().unwrap(),
                old(world)@.registry.len(),
                old(self).configuration().unwrap().len() as int,
            ),
            r.is_ok() ==> final(self).shapes() == old(self).configuration().unwrap()
                && final(self).state().access_set() == access_set_of(
                final(self).shapes(),
                final(self).shapes().len() as int,
            ),
            r.is_err() ==> final(self).configuration() == old(self).configuration()
                && final(self).state() == old(self).state(),
            r matches Err(error) ==> exists|q: int|
                0 <= q < old(self).configuration().unwrap().len() && #[trigger] query_refused(
                    old(self).configuration().unwrap(),
                    old(world)@.registry.len(),
                    q,
                ) && !config_refused(
                    old(self).configuration().unwrap(),
                    old(world)@.registry.len(),
                    q,
                ) && (match old(self).configuration().unwrap()[q].error(
                    old(world)@.registry.len(),
                ) {
                    Some(fault) => error == fault,
                    None => error is Conflict,
                }),
    {
        let r = match self.config.take() {
            Some(config) => {
                match Self::init_params(&*world, &config) {
                    Ok((state, set)) => {
                        self.system_state.component_access_set = set;
                        self.system_state.archetype_component_access = state.combined_access();
                        self.param_state = Some(state);
                        Ok(())
                    },
                    Err(error) => {
                        self.config = Some(config);
                        Err(error)
                    },
                }
            },
            None => vstd::pervasive::unreached(),
        };
        proof {
            old(self).lemma_accepts(self);
        }
        r
    }

    #[inline]
    fn check_system_counter(&mut self, global_system_counter: u32)
        ensures
            final(self).function() == old(self).function(),
            final(self).state().access_set() == old(self).state().access_set(),
            final(self).state().access() == old(self).state().access(),
            final(self).state().send() == old(self).state().send(),
            final(self).state().spec_name() == old(self).state().spec_name(),
            final(self).state().spec_id() == old(self).state().spec_id(),
            final(self).configuration() == old(self).configuration(),
    {
        check_system_counter_impl(
            &mut self.system_state.system_counter,
            global_system_counter,
            self.system_state.name.as_str(),
        );
        proof {
            old(self).lemma_accepts(self);
        }
    }
}

/// The items of queries do not depend on the value of the global counter
/// that the store holds, only on the one that the system runs at.
pub proof fn lemma_params_ignore_counter(
    shapes: Seq<QueryShape>,
    world: WorldView,
    bumped: WorldView,
    system_counter: u32,
    global_system_counter: u32,
    params: Seq<Seq<QueryItemView>>,
)
    requires
        bumped == (WorldView { global_system_counter: bumped.global_system_counter, ..world }),
        ParamState::is_param(shapes, bumped, system_counter, global_system_counter, params),
    ensures
        ParamState::is_param(shapes, world, system_counter, global_system_counter, params),
{
    assert forall|q: int| 0 <= q < shapes.len() implies #[trigger] params[q] == shapes[q].items(
        world,
        world.archetypes.len() as int,
        system_counter,
        global_system_counter,
    ) by {
        lemma_items_ignore_counter(
            shapes[q],
            world,
            bumped,
            world.archetypes.len() as int,
            system_counter,
            global_system_counter,
        );
    }
}

/// The items of a query do not depend on the value of the global counter
/// that the store holds.
pub proof fn lemma_items_ignore_counter(
    shape: QueryShape,
    world: WorldView,
    bumped: WorldView,
    n: int,
    system_counter: u32,
    global_system_counter: u32,
)
    requires
        bumped == (WorldView { global_system_counter: bumped.global_system_counter, ..world }),
    ensures
        shape.items(bumped, n, system_counter, global_system_counter) == shape.items(
            world,
            n,
            system_counter,
            global_system_counter,
        ),
    decreases n,
{
    if n > 0 {
        lemma_items_ignore_counter(shape, world, bumped, n - 1, system_counter,
            global_system_counter);
        lemma_row_items_ignore_counter(
            shape,
            world,
            bumped,
            n - 1,
            world.archetypes[n - 1].entities.len() as int,
            system_counter,
            global_system_counter,
        );
    }
}

/// The items of the rows of an archetype do not depend on the value of
/// the global counter that the store holds.
pub proof fn lemma_row_items_ignore_counter(
    shape: QueryShape,
    world: WorldView,
    bumped: WorldView,
    a: int,
    n: int,
    system_counter: u32,
    global_system_counter: u32,
)
    requires
        bumped == (WorldView { global_system_counter: bumped.global_system_counter, ..world }),
    ensures
        shape.row_items(bumped, a, n, system_counter, global_system_counter) == shape.row_items(
            world,
            a,
            n,
            system_counter,
            global_system_counter,
        ),
    decreases n,
{
    if n > 0 {
        lemma_row_items_ignore_counter(
            shape,
            world,
            bumped,
            a,
            n - 1,
            system_counter,
            global_system_counter,
        );
    }
}

} // verus!
