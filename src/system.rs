use vstd::prelude::*;

verus! {

/// The phase a system runs in.
#[derive(Debug, Clone, Copy, PartialEq, Eq, Hash, Structural)]
pub enum SystemSchedule {
    Startup,
    Update,
    Shutdown,
}

/// The systems registered for each phase, in registration order.
pub struct SystemManager<S> {
    pub systems: Vec<(SystemSchedule, S)>,
}

/// Positions, in order, of the systems registered for `phase`.
pub open spec fn phase_positions<S>(systems: Seq<(SystemSchedule, S)>, phase: SystemSchedule) -> Seq<
    usize,
>
    decreases systems.len(),
{
    if systems.len() == 0 {
        Seq::empty()
    } else {
        let prev = phase_positions(systems.drop_last(), phase);
        if systems.last().0 == phase {
            prev.push((systems.len() - 1) as usize)
        } else {
            prev
        }
    }
}

impl<S> SystemManager<S> {
    pub fn new() -> (r: Self)
        ensures
            r.systems@ == Seq::<(SystemSchedule, S)>::empty(),
    {
        SystemManager { systems: Vec::new() }
    }

    /// Registers `system` to run in `system_schedule`, after those registered before it.
    pub fn add_system(&mut self, system_schedule: SystemSchedule, system: S)
        ensures
            final(self).systems@ == old(self).systems@.push((system_schedule, system)),
    {
        self.systems.push((system_schedule, system));
    }

    /// The positions of the systems of `phase`, in the order they run: registration order.
    pub fn run_order(&self, phase: SystemSchedule) -> (r: Vec<usize>)
        ensures
            r@ == phase_positions(self.systems@, phase),
    {
        let mut r: Vec<usize> = Vec::new();
        let mut i: usize = 0;
        while i < self.systems.len()
            invariant
                i <= self.systems@.len(),
                r@ == phase_positions(self.systems@.take(i as int), phase),
            decreases self.systems@.len() - i,
        {
            proof {
                assert(self.systems@.take(i + 1).drop_last() =~= self.systems@.take(i as int));
            }
            if self.systems[i].0 == phase {
                r.push(i);
            }
            i += 1;
        }
        proof {
            assert(self.systems@.take(i as int) =~= self.systems@);
        }
        r
    }

    /// The system at position `i`, to be run.
    pub fn system_mut(&mut self, i: usize) -> (r: &mut S)
        requires
            i < old(self).systems@.len(),
        ensures
            *r == old(self).systems@[i as int].1,
            final(self).systems@ == old(self).systems@.update(
                i as int,
                (old(self).systems@[i as int].0, *final(r)),
            ),
    {
        &mut self.systems[i].1
    }
}

} // verus!
