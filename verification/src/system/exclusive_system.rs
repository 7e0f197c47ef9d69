//! Exclusive systems: systems that have the whole store to themselves
//! while they run, and change its structure at once.

use vstd::prelude::*;
use crate::component::{advance, clamped_counter};
use crate::query::shape::QueryError;
use crate::system::into_system::IntoSystem;
use crate::query::write::same_placement;
use crate::system::commands::{apply_commands, lemma_commands_keep_counters, Command};
use crate::system::system::{check_system_counter_impl, System, SystemId};
use crate::world::{World, WorldView};

verus! {

/// A system that runs alone on the store.
pub trait ExclusiveSystem {
    /// The system can run on a store that shows `world`.
    spec fn valid_for(&self, world: WorldView) -> bool;

    /// The system has not been set up and can be.
    spec fn can_initialize(&self) -> bool;

    /// The global counter at which the system last ran.
    spec fn system_counter(&self) -> u32;

    /// The name that the system was given.
    spec fn system_name(&self) -> Seq<char>;

    /// The identifier that the system was given.
    spec fn system_id(&self) -> SystemId;

    /// Setting the system up for a store that shows `world` may end
    /// with `r`.
    spec fn initialize_result(&self, world: WorldView, r: Result<(), QueryError>) -> bool;

    /// The name of the system.
    fn name(&self) -> (name: String)
        ensures
            name@ == self.system_name(),
    ;

    /// The identifier of the system.
    fn id(&self) -> (id: SystemId)
        ensures
            id == self.system_id(),
    ;

    /// Runs the system on the store, which it may change in any way that
    /// keeps the store well formed. The value that the global counter
    /// had when the run began becomes the counter of the system. The
    /// counter that stands for the exclusive system in the store is,
    /// after the run, what it was before.
    fn run(&mut self, world: &mut World)
        requires
            old(world).wf(),
            old(self).valid_for(old(world)@),
        ensures
            final(world).wf(),
            final(self).valid_for(final(world)@),
            final(self).system_counter() == old(world)@.global_system_counter,
            final(world)@.exclusive_system_counter == old(world)@.exclusive_system_counter,
            final(self).system_name() == old(self).system_name(),
            final(self).system_id() == old(self).system_id(),
    ;

    /// Sets the system up for the store.
    fn initialize(&mut self, world: &mut World) -> (r: Result<(), QueryError>)
        requires
            old(world).wf(),
            old(self).can_initialize(),
        ensures
            final(world).wf(),
            final(world)@ == old(world)@,
            old(self).initialize_result(old(world)@, r),
            final(self).system_counter() == old(self).system_counter(),
            final(self).system_name() == old(self).system_name(),
            final(self).system_id() == old(self).system_id(),
    ;

    /// Rebases the system's counter against the global counter.
    fn check_system_counter(&mut self, global_system_counter: u32)
        ensures
            final(self).system_counter() == clamped_counter(
                old(self).system_counter(),
                global_system_counter,
            ),
            forall|world: WorldView|
                old(self).valid_for(world) ==> #[trigger] final(self).valid_for(world),
            final(self).system_name() == old(self).system_name(),
            final(self).system_id() == old(self).system_id(),
    ;
}

/// `after` is what is left of `before` when a system has run on it and
/// its structural changes were carried out at once: the run gave `ran`,
/// which differs from `before` in cells and in the global counter, one
/// further, and `commands` are what the system asked for.
pub open spec fn ran_and_applied(
    before: WorldView,
    after: WorldView,
    ran: WorldView,
    commands: Seq<Command>,
) -> bool {
    &&& same_placement(before, ran)
    &&& ran.global_system_counter == advance(before.global_system_counter, 1)
    &&& ran.exclusive_system_counter == before.exclusive_system_counter
    &&& after == apply_commands(ran, commands, commands.len() as int)
}

/// An exclusive system whose body is a function from the store to the
/// store.
pub struct ExclusiveSystemFn<F> {
    pub(crate) func: F,
    pub(crate) name: String,
    pub(crate) id: SystemId,
    pub(crate) system_counter: u32,
}

impl<F> ExclusiveSystemFn<F> {
    /// The function of the system.
    pub closed spec fn function(&self) -> F {
        self.func
    }

    /// The identifier of the system.
    pub closed spec fn spec_id(&self) -> SystemId {
        self.id
    }

    /// The name of the system.
    pub closed spec fn spec_name(&self) -> Seq<char> {
        self.name@
    }
}

/// The function can be called on every well-formed store and hands back
/// a well-formed store.
pub open spec fn keeps_store<F: Fn(World) -> World>(f: F) -> bool {
    &&& forall|world: World| world.wf() ==> #[trigger] f.requires((world,))
    &&& forall|world: World, after: World|
        world.wf() && #[trigger] f.ensures((world,), after) ==> after.wf()
}

impl<F: Fn(World) -> World> ExclusiveSystem for ExclusiveSystemFn<F> {
    open spec fn valid_for(&self, world: WorldView) -> bool {
        keeps_store(self.function())
    }

    open spec fn can_initialize(&self) -> bool {
        true
    }

    closed spec fn system_counter(&self) -> u32 {
        self.system_counter
    }

    open spec fn system_name(&self) -> Seq<char> {
        self.spec_name()
    }

    open spec fn system_id(&self) -> SystemId {
        self.spec_id()
    }

    /// Nothing is to be set up, so that the set-up always succeeds.
    open spec fn initialize_result(&self, world: WorldView, r: Result<(), QueryError>) -> bool {
        r.is_ok()
    }

    fn name(&self) -> (name: String)
        ensures
            name@ == self.spec_name(),
    {
        self.name.clone()
    }

    fn id(&self) -> (id: SystemId)
        ensures
            id == self.spec_id(),
    {
        self.id
    }

    /// While the function runs, the store holds the counter of this
    /// system as the counter of the exclusive system. The value that the
    /// global counter had when the run began becomes the counter of this
    /// system, whatever the function does to the global counter, and
    /// when the function has returned the global counter advances by
    /// one.
    fn run(&mut self, world: &mut World)
        ensures
            final(self).function() == old(self).function(),
            exists|given: World, after: World|
                {
                    &&& given.wf()
                    &&& given@ == (WorldView {
                        exclusive_system_counter: old(self).system_counter(),
                        ..old(world)@
                    })
                    &&& #[trigger] old(self).function().ensures((given,), after)
                    &&& final(world)@ == (WorldView {
                        global_system_counter: advance(after@.global_system_counter, 1),
                        exclusive_system_counter: old(world)@.exclusive_system_counter,
                        ..after@
                    })
                },
    {
        // The previous value is saved in case this exclusive system is
        // run by another exclusive system.
        let saved_counter: u32 = world.exclusive_system_counter();
        let invoked_at: u32 = world.global_system_counter();
        world.set_exclusive_system_counter(self.system_counter);
        let mut given = World::new();
        core::mem::swap(world, &mut given);
        let ghost handed = given;
        let mut after = (self.func)(given);
        let ghost returned = after;
        assert(self.func.ensures((handed,), returned));
        let _ = after.increment_global_system_counter();
        after.set_exclusive_system_counter(saved_counter);
        self.system_counter = invoked_at;
        core::mem::swap(world, &mut after);
    }

    fn initialize(&mut self, _world: &mut World) -> (r: Result<(), QueryError>)
        ensures
            r.is_ok(),
            final(self).function() == old(self).function(),
    {
        Ok(())
    }

    fn check_system_counter(&mut self, global_system_counter: u32)
        ensures
            final(self).function() == old(self).function(),
            final(self).spec_name() == old(self).spec_name(),
            final(self).spec_id() == old(self).spec_id(),
    {
        check_system_counter_impl(
            &mut self.system_counter,
            global_system_counter,
            self.name.as_str(),
        );
    }
}

/// Turns a function, or what can be turned into a system, into an
/// exclusive system.
pub trait IntoExclusiveSystem<Params, SystemType> {
    fn exclusive_system(self, name: String, id: SystemId) -> SystemType;
}

impl<F: Fn(World) -> World> IntoExclusiveSystem<World, ExclusiveSystemFn<F>> for F {
    fn exclusive_system(self, name: String, id: SystemId) -> (system: ExclusiveSystemFn<F>)
        ensures
            system.function() == self,
            system.system_counter() == u32::MAX,
            system.spec_id() == id,
            system.spec_name() == name@,
    {
        ExclusiveSystemFn {
            func: self,
            name,
            id,
            // The largest counter means that everything is seen as added
            // and changed on the first run.
            system_counter: u32::MAX,
        }
    }
}

/// An exclusive system made of an ordinary system: it runs the system
/// and applies the system's buffers at once.
pub struct ExclusiveSystemCoerced<S> {
    pub(crate) system: S,
}

impl<S> ExclusiveSystemCoerced<S> {
    /// The system inside.
    pub closed spec fn inner(&self) -> S {
        self.system
    }
}

impl<S: System<In = (), Out = ()>> ExclusiveSystem for ExclusiveSystemCoerced<S> {
    open spec fn valid_for(&self, world: WorldView) -> bool {
        self.inner().valid_for(world) && self.inner().accepts(())
    }

    open spec fn can_initialize(&self) -> bool {
        !self.inner().initialized()
    }

    open spec fn system_counter(&self) -> u32 {
        self.inner().system_counter()
    }

    open spec fn system_name(&self) -> Seq<char> {
        self.inner().system_name()
    }

    open spec fn system_id(&self) -> SystemId {
        self.inner().system_id()
    }

    /// The set-up ends as the set-up of the system inside ends.
    open spec fn initialize_result(&self, world: WorldView, r: Result<(), QueryError>) -> bool {
        self.inner().initialize_result(world, r)
    }

    fn name(&self) -> (name: String)
        ensures
            name@ == self.inner().system_name(),
    {
        self.system.name()
    }

    fn id(&self) -> (id: SystemId)
        ensures
            id == self.inner().system_id(),
    {
        self.system.id()
    }

    /// Runs the system inside and carries out at once the structural
    /// changes that it asks for, so that whatever runs next sees them.
    fn run(&mut self, world: &mut World)
        ensures
            final(self).inner().buffered() == Seq::<Command>::empty(),
            final(world)@.global_system_counter == advance(old(world)@.global_system_counter, 1),
            exists|ran: WorldView, commands: Seq<Command>|
                #[trigger] ran_and_applied(old(world)@, final(world)@, ran, commands)
                    && old(self).inner().run_result((), old(world)@, ran, commands, ()),
    {
        self.system.run_unsafe((), world);
        let ghost ran = world@;
        let ghost buffered = self.system.buffered();
        self.system.apply_buffers(world);
        proof {
            lemma_commands_keep_counters(ran, buffered, buffered.len() as int);
            assert(ran_and_applied(old(world)@, world@, ran, buffered));
            assert(old(self).inner().run_result((), old(world)@, ran, buffered, ()));
        }
    }

    fn initialize(&mut self, world: &mut World) -> (r: Result<(), QueryError>)
        ensures
            old(self).inner().initialize_result(old(world)@, r),
            r.is_ok() ==> final(self).inner().valid_for(final(world)@)
                && final(self).inner().initialized() && final(self).inner().buffered() == Seq::<
                crate::system::commands::Command,
            >::empty(),
            r.is_err() ==> final(self).can_initialize(),
            forall|input: ()| old(self).inner().accepts(input)
                ==> #[trigger] final(self).inner().accepts(input),
    {
        self.system.initialize(world)
    }

    fn check_system_counter(&mut self, global_system_counter: u32) {
        self.system.check_system_counter(global_system_counter);
    }
}

impl<S, Params, SystemType> IntoExclusiveSystem<
    (Params, SystemType),
    ExclusiveSystemCoerced<SystemType>,
> for S where S: IntoSystem<Params, SystemType>, SystemType: System<In = (), Out = ()> {
    fn exclusive_system(self, name: String, id: SystemId) -> (system: ExclusiveSystemCoerced<
        SystemType,
    >)
        ensures
            self.turns_into(name@, id, system.inner()),
    {
        ExclusiveSystemCoerced { system: self.system(name, id) }
    }
}

} // verus!
