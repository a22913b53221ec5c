use vstd::prelude::*;
use crate::component::{distinct_keys, row_map, MovedEntity, TypeKey};
use crate::entity::{Entity, EntityId};
use crate::entity_manager::{view_add_component, view_remove_component, EntityManager};

verus! {

/// A structural change to apply to a manager later, once no query rows are held.
pub enum Command<T> {
    Create(MovedEntity<T>),
    Remove(Entity),
    AddComponent(Entity, TypeKey, T),
    RemoveComponent(Entity, TypeKey),
}

/// The entities and the next identifier after command `c`; commands on an entity that is not
/// live change nothing.
pub open spec fn command_effect<T>(v: Map<EntityId, Map<TypeKey, T>>, next: nat, c: Command<T>) -> (
    Map<EntityId, Map<TypeKey, T>>,
    nat,
) {
    match c {
        Command::Create(b) => (v.insert(next as EntityId, row_map(b@)), next + 1),
        Command::Remove(e) => (if v.contains_key(e.id) { v.remove(e.id) } else { v }, next),
        Command::AddComponent(e, k, x) => (
            if v.contains_key(e.id) { view_add_component(v, e.id, k, x) } else { v },
            next,
        ),
        Command::RemoveComponent(e, k) => (
            if v.contains_key(e.id) { view_remove_component(v, e.id, k) } else { v },
            next,
        ),
    }
}

/// The effect of a sequence of commands applied in order.
pub open spec fn commands_effect<T>(
    v: Map<EntityId, Map<TypeKey, T>>,
    next: nat,
    cmds: Seq<Command<T>>,
) -> (Map<EntityId, Map<TypeKey, T>>, nat)
    decreases cmds.len(),
{
    if cmds.len() == 0 {
        (v, next)
    } else {
        let (v1, n1) = commands_effect(v, next, cmds.drop_last());
        command_effect(v1, n1, cmds.last())
    }
}

/// The command creates an entity from a bundle with at least one value and no repeated type.
pub open spec fn command_valid<T>(c: Command<T>) -> bool {
    match c {
        Command::Create(b) => b@.len() > 0 && distinct_keys(b@),
        _ => true,
    }
}

/// Number of entity creations among the commands.
pub open spec fn creations<T>(cmds: Seq<Command<T>>) -> nat
    decreases cmds.len(),
{
    if cmds.len() == 0 {
        0
    } else {
        creations(cmds.drop_last()) + if cmds.last() is Create { 1nat } else { 0nat }
    }
}

/// Structural changes requested while query rows are held, to be applied afterwards in order.
pub struct CommandQueue<T> {
    pub commands: Vec<Command<T>>,
}

impl<T> CommandQueue<T> {
    pub fn new() -> (r: Self)
        ensures
            r.commands@ == Seq::<Command<T>>::empty(),
    {
        CommandQueue { commands: Vec::new() }
    }

    /// Queues `command` after those already queued.
    pub fn push(&mut self, command: Command<T>)
        ensures
            final(self).commands@ == old(self).commands@.push(command),
    {
        self.commands.push(command);
    }
}

impl<T> EntityManager<T> {
    /// Applies one command.
    pub fn apply_command(&mut self, command: Command<T>)
        requires
            old(self).wf(),
            command_valid(command),
            command is Create ==> old(self).next_id < EntityId::MAX,
        ensures
            final(self).wf(),
            (final(self)@, final(self).next_id as nat) == command_effect(
                old(self)@,
                old(self).next_id as nat,
                command,
            ),
    {
        match command {
            Command::Create(b) => {
                let _ = self.create_entity(b);
            },
            Command::Remove(e) => {
                let _ = self.remove_entity(e);
            },
            Command::AddComponent(e, k, x) => {
                let _ = self.add_component_to_entity(e, k, x);
            },
            Command::RemoveComponent(e, k) => {
                let _ = self.remove_component(e, k);
            },
        }
    }

    /// Applies the queued commands in the order they were queued.
    pub fn apply_commands(&mut self, queue: CommandQueue<T>)
        requires
            old(self).wf(),
            forall|i: int|
                0 <= i < queue.commands@.len() ==> command_valid(#[trigger] queue.commands@[i]),
            old(self).next_id + creations(queue.commands@) < EntityId::MAX,
        ensures
            final(self).wf(),
            (final(self)@, final(self).next_id as nat) == commands_effect(
                old(self)@,
                old(self).next_id as nat,
                queue.commands@,
            ),
    {
        let ghost cmds = queue.commands@;
        let ghost len = cmds.len();
        let count: usize = queue.commands.len();
        let mut pending = queue.commands;
        let mut reversed: Vec<Command<T>> = Vec::new();
        while pending.len() > 0
            invariant
                pending@ == cmds.take(pending@.len() as int),
                pending@.len() <= len,
                len == cmds.len(),
                reversed@.len() == len - pending@.len(),
                forall|j: int| 0 <= j < reversed@.len() ==> #[trigger] reversed@[j] == cmds[len - 1 - j],
            decreases pending.len(),
        {
            let c = pending.pop().unwrap();
            reversed.push(c);
        }
        let mut done: usize = 0;
        while reversed.len() > 0
            invariant
                self.wf(),
                len == cmds.len(),
                len == count,
                done + reversed@.len() == len,
                forall|j: int| 0 <= j < reversed@.len() ==> #[trigger] reversed@[j] == cmds[len - 1 - j],
                forall|i: int| 0 <= i < cmds.len() ==> command_valid(#[trigger] cmds[i]),
                (self@, self.next_id as nat) == commands_effect(
                    old(self)@,
                    old(self).next_id as nat,
                    cmds.take(done as int),
                ),
                self.next_id + (creations(cmds) - creations(cmds.take(done as int))) < EntityId::MAX,
                creations(cmds.take(done as int)) <= creations(cmds),
            decreases reversed.len(),
        {
            let c = reversed.pop().unwrap();
            assert(c == cmds[done as int]);
            proof {
                assert(cmds.take(done + 1).drop_last() =~= cmds.take(done as int));
                lemma_creations_prefix(cmds, done + 1);
            }
            self.apply_command(c);
            done += 1;
        }
        proof {
            assert(cmds.take(len as int) =~= cmds);
        }
    }
}

/// Creations never decrease along prefixes.
proof fn lemma_creations_prefix<T>(cmds: Seq<Command<T>>, n: int)
    requires
        0 <= n <= cmds.len(),
    ensures
        creations(cmds.take(n)) <= creations(cmds),
        n > 0 ==> creations(cmds.take(n)) == creations(cmds.take(n - 1)) + if cmds[n - 1] is Create {
            1nat
        } else {
            0nat
        },
    decreases cmds.len() - n,
{
    if n > 0 {
        assert(cmds.take(n).drop_last() =~= cmds.take(n - 1));
    }
    if n < cmds.len() {
        lemma_creations_prefix(cmds, n + 1);
        assert(cmds.take(n + 1).drop_last() =~= cmds.take(n));
    } else {
        assert(cmds.take(n) =~= cmds);
    }
}

} // verus!
