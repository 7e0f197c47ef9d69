//! What every system offers to a scheduler.

use vstd::prelude::*;
use crate::component::{advance, check_counter, clamped_counter};
use crate::query::access::Access;
use crate::query::shape::QueryError;
use crate::query::write::same_placement;
use crate::system::commands::{apply_commands, Command};
use crate::world::{World, WorldView};

verus! {

/// The identifier of a system, chosen by whoever creates the system.
#[derive(Copy, Clone, Debug, PartialEq, Eq, Structural)]
pub struct SystemId(pub usize);

impl SystemId {
    pub fn new(id: usize) -> (r: SystemId)
        ensures
            r == SystemId(id),
    {
        SystemId(id)
    }
}

/// Rebases the counter of a system that has not run for more than half
/// the range of the global counter, so that comparisons against later
/// global values stay unambiguous. The name of the system plays no part
/// in this; it is there for callers that report which system was rebased.
pub fn check_system_counter_impl(
    system_counter: &mut u32,
    global_system_counter: u32,
    system_name: &str,
)
    ensures
        *final(system_counter) == clamped_counter(*old(system_counter), global_system_counter),
{
    check_counter(system_counter, global_system_counter);
}

/// A unit of logic that a scheduler can run on the store.
pub trait System {
    /// What the system is given when it runs.
    type In;

    /// What the system hands back when it has run.
    type Out;

    /// The system has been initialised for a store that showed `world`,
    /// or an earlier state of it.
    spec fn valid_for(&self, world: WorldView) -> bool;

    /// The system has been initialised.
    spec fn initialized(&self) -> bool;

    /// The global counter at which the system last ran.
    spec fn system_counter(&self) -> u32;

    /// The structural changes that the system has asked for and that
    /// have not been carried out yet.
    spec fn buffered(&self) -> Seq<Command>;

    /// The system can be run with this input.
    spec fn accepts(&self, input: Self::In) -> bool;

    /// The name that the system was given.
    spec fn system_name(&self) -> Seq<char>;

    /// The identifier that the system was given.
    spec fn system_id(&self) -> SystemId;

    /// The system has seen every archetype of `world`: its footprint
    /// over archetype components covers them all.
    spec fn up_to_date(&self, world: WorldView) -> bool;

    /// Running the system with `input` on a store that shows `before`
    /// may leave a store that shows `ran`, with the structural changes
    /// `buffered` waiting to be carried out, and hand back `out`.
    spec fn run_result(
        &self,
        input: Self::In,
        before: WorldView,
        ran: WorldView,
        buffered: Seq<Command>,
        out: Self::Out,
    ) -> bool;

    /// Setting the system up for a store that shows `world` may end
    /// with `r`.
    spec fn initialize_result(&self, world: WorldView, r: Result<(), QueryError>) -> bool;

    /// The name of the system.
    fn name(&self) -> (name: String)
        ensures
            name@ == self.system_name(),
    ;

    /// The identifier of the system.
    fn id(&self) -> (id: SystemId)
        ensures
            id == self.system_id(),
    ;

    /// Takes note of the archetypes that the store has created since the
    /// system last looked.
    fn update_archetypes(&mut self, world: &World)
        requires
            world.wf(),
            old(self).valid_for(world@),
        ensures
            final(self).valid_for(world@),
            final(self).up_to_date(world@),
            final(self).system_counter() == old(self).system_counter(),
            final(self).buffered() == old(self).buffered(),
            final(self).system_name() == old(self).system_name(),
            final(self).system_id() == old(self).system_id(),
            forall|input: Self::In| old(self).accepts(input)
                ==> #[trigger] final(self).accepts(input),
    ;

    /// The footprint of the system over component types.
    fn component_access(&self) -> &Access;

    /// The footprint of the system over archetype components.
    fn archetype_component_access(&self) -> &Access;

    /// Whether the system may run on any thread.
    fn is_send(&self) -> bool;

    /// Runs the system: the global counter advances by one, the system
    /// sees the store as of the value that the counter had, and that
    /// value becomes the system's own counter. Only cells and counters of
    /// the store change; structural changes are buffered.
    fn run_unsafe(&mut self, input: Self::In, world: &mut World) -> (out: Self::Out)
        requires
            old(world).wf(),
            old(self).valid_for(old(world)@),
            old(self).accepts(input),
        ensures
            final(world).wf(),
            final(self).valid_for(final(world)@),
            final(self).system_counter() == old(world)@.global_system_counter,
            final(world)@.global_system_counter == advance(old(world)@.global_system_counter, 1),
            final(world)@.exclusive_system_counter == old(world)@.exclusive_system_counter,
            same_placement(old(world)@, final(world)@),
            old(self).run_result(input, old(world)@, final(world)@, final(self).buffered(), out),
            final(self).system_name() == old(self).system_name(),
            final(self).system_id() == old(self).system_id(),
            forall|again: Self::In| old(self).accepts(again)
                ==> #[trigger] final(self).accepts(again),
    ;

    /// Carries out the structural changes that the system has asked for,
    /// in the order in which it asked for them.
    fn apply_buffers(&mut self, world: &mut World)
        requires
            old(world).wf(),
            old(self).valid_for(old(world)@),
        ensures
            final(world).wf(),
            final(self).valid_for(final(world)@),
            final(self).system_counter() == old(self).system_counter(),
            final(self).buffered() == Seq::<Command>::empty(),
            final(self).system_name() == old(self).system_name(),
            final(self).system_id() == old(self).system_id(),
            final(world)@ == apply_commands(
                old(world)@,
                old(self).buffered(),
                old(self).buffered().len() as int,
            ),
            forall|input: Self::In| old(self).accepts(input)
                ==> #[trigger] final(self).accepts(input),
    ;

    /// Sets the system up for the store. A system is set up once; when
    /// the set-up is refused the system stays as it was.
    fn initialize(&mut self, world: &mut World) -> (r: Result<(), QueryError>)
        requires
            old(world).wf(),
            !old(self).initialized(),
        ensures
            final(world).wf(),
            final(world)@ == old(world)@,
            old(self).initialize_result(old(world)@, r),
            final(self).system_name() == old(self).system_name(),
            final(self).system_id() == old(self).system_id(),
            r.is_ok() ==> final(self).valid_for(final(world)@) && final(self).initialized(),
            r.is_err() ==> !final(self).initialized(),
            final(self).system_counter() == old(self).system_counter(),
            r.is_ok() ==> final(self).buffered() == Seq::<Command>::empty(),
            forall|input: Self::In| old(self).accepts(input)
                ==> #[trigger] final(self).accepts(input),
    ;

    /// Rebases the system's counter against the global counter.
    fn check_system_counter(&mut self, global_system_counter: u32)
        ensures
            final(self).system_counter() == clamped_counter(
                old(self).system_counter(),
                global_system_counter,
            ),
            final(self).buffered() == old(self).buffered(),
            final(self).initialized() == old(self).initialized(),
            final(self).system_name() == old(self).system_name(),
            final(self).system_id() == old(self).system_id(),
            forall|world: WorldView|
                old(self).valid_for(world) ==> #[trigger] final(self).valid_for(world),
            forall|input: Self::In| old(self).accepts(input)
                ==> #[trigger] final(self).accepts(input),
    ;
}

} // verus!
