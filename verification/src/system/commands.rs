//! Deferred structural changes: recorded while a system runs, replayed in
//! the order of recording when the system's buffers are applied.

use vstd::prelude::*;
use crate::component::ComponentId;
use crate::entity::Entity;
use crate::world::{sorted_members, World, WorldView};

verus! {

/// One deferred structural change.
#[derive(Copy, Clone, Debug, PartialEq, Eq, Structural)]
pub enum Command {
    /// Give the entity a component.
    Insert { entity: Entity, component_id: ComponentId, value: u64 },
    /// Take a component from the entity.
    Remove { entity: Entity, component_id: ComponentId },
    /// Remove the entity.
    Despawn { entity: Entity },
}

impl Command {
    /// The view of the store after the command was carried out. A command
    /// that the store refuses changes nothing.
    pub open spec fn apply(self, world: WorldView) -> WorldView {
        match self {
            Command::Insert { entity, component_id, value } => {
                let bundle = map![component_id => value];
                if world.insert_result(entity, bundle).is_ok() {
                    world.moved(
                        entity,
                        world.bundle_target(entity, bundle),
                        world.with_bundle(entity, bundle),
                    )
                } else {
                    world
                }
            },
            Command::Remove { entity, component_id } => {
                if world.remove_result(entity, component_id) matches Ok(Some(_)) {
                    world.moved(
                        entity,
                        sorted_members(world.entities[entity].dom().remove(component_id)),
                        world.entities[entity].remove(component_id),
                    )
                } else {
                    world
                }
            },
            Command::Despawn { entity } => {
                if world.contains(entity) {
                    world.despawned(entity)
                } else {
                    world
                }
            },
        }
    }
}

/// The view of the store after the first `n` commands were carried out,
/// in order.
pub open spec fn apply_commands(world: WorldView, commands: Seq<Command>, n: int) -> WorldView
    decreases n,
{
    if n <= 0 {
        world
    } else {
        commands[n - 1].apply(apply_commands(world, commands, n - 1))
    }
}

/// A queue of deferred structural changes.
pub struct CommandQueue {
    pub(crate) commands: Vec<Command>,
}

impl CommandQueue {
    /// The commands recorded, in the order of recording.
    pub closed spec fn view(&self) -> Seq<Command> {
        self.commands@
    }

    pub fn new() -> (queue: CommandQueue)
        ensures
            queue@ == Seq::<Command>::empty(),
    {
        CommandQueue { commands: Vec::new() }
    }

    /// Records a command.
    pub fn push(&mut self, command: Command)
        ensures
            final(self)@ == old(self)@.push(command),
    {
        self.commands.push(command);
    }

    /// Records that the entity is to be given a component.
    pub fn insert(&mut self, entity: Entity, component_id: ComponentId, value: u64)
        ensures
            final(self)@ == old(self)@.push(Command::Insert { entity, component_id, value }),
    {
        self.commands.push(Command::Insert { entity, component_id, value });
    }

    /// Records that a component is to be taken from the entity.
    pub fn remove(&mut self, entity: Entity, component_id: ComponentId)
        ensures
            final(self)@ == old(self)@.push(Command::Remove { entity, component_id }),
    {
        self.commands.push(Command::Remove { entity, component_id });
    }

    /// Records that the entity is to be removed.
    pub fn despawn(&mut self, entity: Entity)
        ensures
            final(self)@ == old(self)@.push(Command::Despawn { entity }),
    {
        self.commands.push(Command::Despawn { entity });
    }

    /// Records the commands of a list, in order.
    pub fn extend(&mut self, commands: &Vec<Command>)
        ensures
            final(self)@ == old(self)@ + commands@,
    {
        let mut i: usize = 0;
        while i < commands.len()
            invariant
                i <= commands@.len(),
                self@ == old(self)@ + commands@.subrange(0, i as int),
            decreases commands@.len() - i,
        {
            self.commands.push(commands[i]);
            assert(self@ =~= old(self)@ + commands@.subrange(0, i + 1));
            i += 1;
        }
        assert(commands@.subrange(0, commands@.len() as int) =~= commands@);
    }

    /// Carries out the commands recorded, in the order of recording, and
    /// empties the queue.
    pub fn apply(&mut self, world: &mut World)
        requires
            old(world).wf(),
        ensures
            final(world).wf(),
            final(world)@ == apply_commands(old(world)@, old(self)@, old(self)@.len() as int),
            final(world)@.extends(old(world)@),
            final(self)@ == Seq::<Command>::empty(),
    {
        let mut i: usize = 0;
        while i < self.commands.len()
            invariant
                i <= self.commands@.len(),
                self.commands@ == old(self).commands@,
                world.wf(),
                world@ == apply_commands(old(world)@, self.commands@, i as int),
                world@.extends(old(world)@),
            decreases self.commands@.len() - i,
        {
            let ghost before = world@;
            proof {
                world.lemma_view_wf();
            }
            match self.commands[i] {
                Command::Insert { entity, component_id, value } => {
                    let _ = world.insert(entity, component_id, value);
                },
                Command::Remove { entity, component_id } => {
                    let _ = world.remove(entity, component_id);
                },
                Command::Despawn { entity } => {
                    let _ = world.despawn(entity);
                },
            }
            proof {
                lemma_apply_extends(before, self.commands@[i as int]);
            }
            i += 1;
        }
        self.commands = Vec::new();
    }
}

/// Carrying out a command keeps what is registered and the archetypes
/// that there are.
pub proof fn lemma_apply_extends(world: WorldView, command: Command)
    requires
        world.wf(),
    ensures
        command.apply(world).extends(world),
{
    match command {
        Command::Insert { entity, component_id, value } => {
            let bundle = map![component_id => value];
            if world.insert_result(entity, bundle).is_ok() {
                world.lemma_moved_extends(
                    entity,
                    world.bundle_target(entity, bundle),
                    world.with_bundle(entity, bundle),
                );
            }
        },
        Command::Remove { entity, component_id } => {
            if world.remove_result(entity, component_id) matches Ok(Some(_)) {
                world.lemma_moved_extends(
                    entity,
                    sorted_members(world.entities[entity].dom().remove(component_id)),
                    world.entities[entity].remove(component_id),
                );
            }
        },
        Command::Despawn { entity } => {},
    }
}

/// Carrying out commands leaves the counters of the store alone.
pub proof fn lemma_commands_keep_counters(world: WorldView, commands: Seq<Command>, n: int)
    ensures
        apply_commands(world, commands, n).global_system_counter == world.global_system_counter,
        apply_commands(world, commands, n).exclusive_system_counter
            == world.exclusive_system_counter,
    decreases n,
{
    if n > 0 {
        lemma_commands_keep_counters(world, commands, n - 1);
    }
}

} // verus!
