//! The decisions of the executor: which module a message goes to, and
//! when each periodic tick fires. Threads, locks and clocks are driven from
//! outside; times are nanoseconds on a clock that only moves forward.
use crate::assoc::{
    find_id_key, has_key, law_map_put_keeps_others, law_map_remove_keeps_others, lemma_key_pos,
    lemma_map_put_remove_unique, map_get, map_put, map_remove, unique_keys,
};
use vstd::prelude::*;

verus! {

/// A type that can be sent to a module.
pub trait Message: core::fmt::Debug + Clone + Send + 'static {

}

impl<T: core::fmt::Debug + Clone + Send + 'static> Message for T {

}

/// A module that handles messages of type `M`.
pub trait Handler<M: Message> {
    fn handle(&mut self, msg: M);
}

/// The message that a module gets on each of its periodic ticks.
#[derive(Debug, Clone, Copy)]
pub struct Tick {}

/// What the worker of the executor gets: a module to register under a
/// number, a closure to run, a number whose module to drop, or the order to
/// stop.
pub enum WorkerMsg<M, C> {
    NewModule((u128, M)),
    ExecuteMsg(C),
    RemModule(u128),
    EndingMsg,
}

/// What the worker does next.
pub enum WorkerStep<C> {
    /// Wait for the next message.
    Continue,
    /// Run the closure, then wait for the next message.
    Execute(C),
    /// Stop.
    Stop,
}

/// The modules that the worker keeps alive, by number.
pub struct ModuleTable<M> {
    modules: Vec<(u128, M)>,
}

impl<M> ModuleTable<M> {
    /// The modules, by number, in order of registration.
    pub closed spec fn view(&self) -> Seq<(u128, M)> {
        self.modules@
    }

    pub closed spec fn wf(&self) -> bool {
        unique_keys(self.modules@)
    }

    /// An empty table.
    pub fn new() -> (t: Self)
        ensures
            t.wf(),
            t.view().len() == 0,
    {
        ModuleTable { modules: Vec::new() }
    }

    /// How many modules are kept.
    pub fn len(&self) -> (r: usize)
        ensures
            r == self.view().len(),
    {
        self.modules.len()
    }

    /// Handles a message of the worker: a new module is bound to its number
    /// (replacing one registered under it), a dropped one is removed, a
    /// closure is handed back to run, and the order to stop stops.
    pub fn handle<C>(&mut self, msg: WorkerMsg<M, C>) -> (r: WorkerStep<C>)
        requires
            old(self).wf(),
        ensures
            final(self).wf(),
            match msg {
                WorkerMsg::NewModule((id, m)) => final(self).view() == map_put(old(self).view(), id, m)
                    && r is Continue,
                WorkerMsg::ExecuteMsg(c) => final(self).view() == old(self).view() && r == WorkerStep::Execute(c),
                WorkerMsg::RemModule(id) => final(self).view() == map_remove(old(self).view(), id)
                    && r is Continue,
                WorkerMsg::EndingMsg => final(self).view() == old(self).view() && r is Stop,
            },
            msg matches WorkerMsg::RemModule(id) ==> {
                &&& !has_key(final(self).view(), id)
                &&& has_key(old(self).view(), id) ==> final(self).view().len() == old(self).view().len() - 1
                &&& forall|k: u128|
                    k != id ==> (#[trigger] has_key(final(self).view(), k) == has_key(old(self).view(), k))
                &&& forall|k: u128|
                    k != id && has_key(old(self).view(), k) ==> #[trigger] map_get(final(self).view(), k)
                        == map_get(old(self).view(), k)
            },
            msg matches WorkerMsg::NewModule((id, m)) ==> {
                &&& has_key(final(self).view(), id)
                &&& map_get(final(self).view(), id) == m
                &&& forall|k: u128|
                    k != id ==> (#[trigger] has_key(final(self).view(), k) == has_key(old(self).view(), k))
                &&& forall|k: u128|
                    k != id && has_key(old(self).view(), k) ==> #[trigger] map_get(final(self).view(), k)
                        == map_get(old(self).view(), k)
            },
    {
        match msg {
            WorkerMsg::NewModule((id, m)) => {
                let ghost before = self.modules@;
                let ghost gm = m;
                match find_id_key(&self.modules, id) {
                    Some(i) => {
                        self.modules.set(i, (id, m));
                        proof {
                            lemma_key_pos(before, id, i as int);
                            assert(self.modules@ =~= before.update(i as int, (id, gm)));
                        }
                    },
                    None => {
                        self.modules.push((id, m));
                    },
                }
                proof {
                    lemma_map_put_remove_unique(before, id, gm);
                    law_map_put_keeps_others(before, id, gm);
                }
                WorkerStep::Continue
            },
            WorkerMsg::ExecuteMsg(c) => WorkerStep::Execute(c),
            WorkerMsg::RemModule(id) => {
                let ghost before = self.modules@;
                match find_id_key(&self.modules, id) {
                    Some(i) => {
                        self.modules.remove(i);
                        proof {
                            lemma_key_pos(before, id, i as int);
                            assert(self.modules@ =~= before.remove(i as int));
                            lemma_map_put_remove_unique(before, id, self.modules@[0].1);
                        }
                    },
                    None => {},
                }
                proof {
                    law_map_remove_keeps_others(before, id);
                }
                WorkerStep::Continue
            },
            WorkerMsg::EndingMsg => WorkerStep::Stop,
        }
    }
}

/// A periodic action: it is due at `start_time`, and after it fires it is
/// due again `dur` later.
#[derive(Debug, Clone, Copy, PartialEq, Eq, Structural)]
pub struct TickEntry {
    pub start_time: u128,
    pub dur: u128,
    pub action_number: usize,
}

/// What the tick thread does next.
#[derive(Debug, Clone, Copy, PartialEq, Eq, Structural)]
pub enum TickStep {
    /// The executor is being dropped: stop.
    Stop,
    /// Nothing is scheduled: wait until woken.
    Wait,
    /// The next action is due after this many nanoseconds: wait that long,
    /// or until woken.
    WaitFor(u128),
    /// The next action is due: fire it.
    Fire,
}

/// Whether `i` is the place of the action due first: none is due earlier,
/// and none before it is due at the same time.
pub open spec fn is_earliest(q: Seq<TickEntry>, i: int) -> bool {
    &&& 0 <= i < q.len()
    &&& forall|j: int| 0 <= j < q.len() ==> q[i].start_time <= #[trigger] q[j].start_time
    &&& forall|j: int| 0 <= j < i ==> q[i].start_time < #[trigger] q[j].start_time
}

/// The action taken as due first is due no later than any scheduled
/// action, and no action before it in the queue is due at the same time;
/// so there is at most one such place.
pub proof fn law_earliest_is_due_first(q: Seq<TickEntry>, i: int)
    requires
        is_earliest(q, i),
    ensures
        0 <= i < q.len(),
        forall|j: int| 0 <= j < q.len() ==> q[i].start_time <= #[trigger] q[j].start_time,
        forall|j: int| 0 <= j < i ==> q[i].start_time < #[trigger] q[j].start_time,
        forall|j: int| #[trigger] is_earliest(q, j) ==> j == i,
{
    assert forall|j: int| #[trigger] is_earliest(q, j) implies j == i by {
        if j < i {
            assert(q[i].start_time < q[j].start_time);
            assert(q[j].start_time <= q[i].start_time);
        } else if i < j {
            assert(q[j].start_time < q[i].start_time);
            assert(q[i].start_time <= q[j].start_time);
        }
    }
}

/// The periodic actions and the number that the next one gets.
pub struct TickScheduler {
    queue: Vec<TickEntry>,
    last_action_number: usize,
}

impl TickScheduler {
    /// The scheduled actions.
    pub closed spec fn queue_v(&self) -> Seq<TickEntry> {
        self.queue@
    }

    /// The number of the next action requested.
    pub closed spec fn next_action(&self) -> usize {
        self.last_action_number
    }

    /// Every scheduled action has a number given out before.
    pub closed spec fn wf(&self) -> bool {
        forall|i: int| 0 <= i < self.queue@.len() ==> #[trigger] self.queue@[i].action_number < self.last_action_number
    }

    /// No action scheduled.
    pub fn new() -> (s: Self)
        ensures
            s.wf(),
            s.queue_v().len() == 0,
            s.next_action() == 0,
    {
        TickScheduler { queue: Vec::new(), last_action_number: 0 }
    }

    /// The place of the action due first.
    fn earliest(&self) -> (i: usize)
        requires
            self.queue@.len() > 0,
        ensures
            is_earliest(self.queue@, i as int),
    {
        let mut best: usize = 0;
        let mut j: usize = 1;
        while j < self.queue.len()
            invariant
                1 <= j <= self.queue@.len(),
                best < j,
                forall|k: int| 0 <= k < j ==> self.queue@[best as int].start_time <= #[trigger] self.queue@[k].start_time,
                forall|k: int| 0 <= k < best ==> self.queue@[best as int].start_time < #[trigger] self.queue@[k].start_time,
            decreases self.queue@.len() - j,
        {
            if self.queue[j].start_time < self.queue[best].start_time {
                best = j;
            }
            j = j + 1;
        }
        best
    }

    /// Schedules a new periodic action, due `delay` after `now` and every
    /// `delay` after that. Gives its number, and whether it is now the one
    /// due first (so that a waiting tick thread must be woken); `None`, with
    /// nothing scheduled, where the due time or the action number would not
    /// fit.
    pub fn request_tick(&mut self, now: u128, delay: u128) -> (r: Option<(usize, bool)>)
        requires
            old(self).wf(),
        ensures
            final(self).wf(),
            r is None <==> now + delay > u128::MAX || old(self).next_action() == usize::MAX,
            r is None ==> final(self).queue_v() == old(self).queue_v() && final(self).next_action()
                == old(self).next_action(),
            r matches Some(p) ==> {
                &&& p.0 == old(self).next_action()
                &&& final(self).next_action() == old(self).next_action() + 1
                &&& final(self).queue_v() == old(self).queue_v().push(
                    TickEntry { start_time: (now + delay) as u128, dur: delay, action_number: p.0 },
                )
                &&& p.1 == is_earliest(final(self).queue_v(), old(self).queue_v().len() as int)
                &&& p.1 == forall|j: int|
                    0 <= j < old(self).queue_v().len() ==> now + delay < #[trigger] old(self).queue_v()[j].start_time
            },
    {
        if now > u128::MAX - delay || self.last_action_number == usize::MAX {
            return None;
        }
        let number = self.last_action_number;
        self.queue.push(TickEntry { start_time: now + delay, dur: delay, action_number: number });
        self.last_action_number = self.last_action_number + 1;
        let first = self.earliest();
        let notify = self.queue[first].action_number == number;
        proof {
            let n = old(self).queue@.len() as int;
            law_earliest_is_due_first(self.queue@, first as int);
            assert forall|j: int| 0 <= j < n implies #[trigger] old(self).queue@[j] == self.queue@[j] by {}
            if is_earliest(self.queue@, n) {
                law_earliest_is_due_first(self.queue@, n);
                assert forall|j: int| 0 <= j < n implies now + delay < #[trigger] old(self).queue@[j].start_time by {
                    assert(self.queue@[n].start_time < self.queue@[j].start_time);
                }
            } else {
                if forall|j: int| 0 <= j < n ==> now + delay < #[trigger] old(self).queue@[j].start_time {
                    assert(is_earliest(self.queue@, n)) by {
                        assert forall|j: int| 0 <= j < self.queue@.len() implies self.queue@[n].start_time
                            <= #[trigger] self.queue@[j].start_time by {
                            if j < n {
                                assert(old(self).queue@[j] == self.queue@[j]);
                            }
                        }
                        assert forall|j: int| 0 <= j < n implies self.queue@[n].start_time
                            < #[trigger] self.queue@[j].start_time by {
                            assert(old(self).queue@[j] == self.queue@[j]);
                        }
                    }
                }
            }
            if notify && first != n {
                assert(self.queue@[first as int].action_number < number);
            }
            if is_earliest(self.queue@, n) && first != n {
                assert(self.queue@[first as int].start_time <= self.queue@[n].start_time);
                if first < n {
                    assert(self.queue@[n].start_time < self.queue@[first as int].start_time);
                } else {
                    assert(self.queue@[first as int].start_time < self.queue@[n].start_time);
                }
            }
        }
        Some((number, notify))
    }

    /// What the tick thread does next at time `now`: stop when the executor
    /// is being dropped, wait when nothing is scheduled, wait until the
    /// action due first is due, or fire it.
    pub fn next_step(&self, now: u128, dropped: bool) -> (r: TickStep)
        ensures
            dropped ==> r == TickStep::Stop,
            !dropped && self.queue_v().len() == 0 ==> r == TickStep::Wait,
            !dropped && self.queue_v().len() > 0 ==> exists|i: int|
                is_earliest(self.queue_v(), i) && if self.queue_v()[i].start_time > now {
                    r == TickStep::WaitFor((self.queue_v()[i].start_time - now) as u128)
                } else {
                    r == TickStep::Fire
                },
            !dropped && self.queue_v().len() > 0 ==> (r == TickStep::Fire <==> exists|j: int|
                0 <= j < self.queue_v().len() && #[trigger] self.queue_v()[j].start_time <= now),
            r matches TickStep::WaitFor(d) ==> {
                &&& forall|j: int| 0 <= j < self.queue_v().len() ==> now + d <= #[trigger] self.queue_v()[j].start_time
                &&& exists|j: int| 0 <= j < self.queue_v().len() && #[trigger] self.queue_v()[j].start_time == now + d
            },
    {
        if dropped {
            return TickStep::Stop;
        }
        if self.queue.len() == 0 {
            return TickStep::Wait;
        }
        let i = self.earliest();
        let start = self.queue[i].start_time;
        proof {
            law_earliest_is_due_first(self.queue@, i as int);
        }
        if start > now {
            assert(self.queue_v()[i as int].start_time == now + (start - now));
            TickStep::WaitFor(start - now)
        } else {
            TickStep::Fire
        }
    }

    /// Fires the action due first: it is taken off and scheduled again
    /// `dur` after it was due. Gives its number; `None`, with nothing
    /// changed, where nothing is scheduled or the next due time would not
    /// fit.
    pub fn fire(&mut self) -> (r: Option<usize>)
        requires
            old(self).wf(),
        ensures
            final(self).wf(),
            final(self).next_action() == old(self).next_action(),
            old(self).queue_v().len() == 0 ==> r is None && final(self).queue_v() == old(self).queue_v(),
            old(self).queue_v().len() > 0 ==> exists|i: int|
                {
                    &&& is_earliest(old(self).queue_v(), i)
                    &&& if old(self).queue_v()[i].start_time + old(self).queue_v()[i].dur > u128::MAX {
                        &&& r is None
                        &&& final(self).queue_v() == old(self).queue_v()
                    } else {
                        &&& r == Some(old(self).queue_v()[i].action_number)
                        &&& final(self).queue_v() == old(self).queue_v().remove(i).push(
                            TickEntry {
                                start_time: (old(self).queue_v()[i].start_time + old(self).queue_v()[i].dur) as u128,
                                dur: old(self).queue_v()[i].dur,
                                action_number: old(self).queue_v()[i].action_number,
                            },
                        )
                    }
                },
            r matches Some(a) ==> a < final(self).next_action(),
            r matches Some(a) ==> exists|i: int|
                0 <= i < old(self).queue_v().len() && old(self).queue_v()[i].action_number == a && forall|j: int|
                    0 <= j < old(self).queue_v().len() ==> old(self).queue_v()[i].start_time
                        <= #[trigger] old(self).queue_v()[j].start_time,
    {
        if self.queue.len() == 0 {
            return None;
        }
        let i = self.earliest();
        proof {
            law_earliest_is_due_first(self.queue@, i as int);
        }
        if self.queue[i].start_time > u128::MAX - self.queue[i].dur {
            return None;
        }
        let e = self.queue.remove(i);
        self.queue.push(TickEntry { start_time: e.start_time + e.dur, dur: e.dur, action_number: e.action_number });
        proof {
            assert forall|k: int| 0 <= k < self.queue@.len() implies #[trigger] self.queue@[k].action_number
                < self.last_action_number by {
                if k < i {
                    assert(self.queue@[k] == old(self).queue@[k]);
                } else if k < self.queue@.len() - 1 {
                    assert(self.queue@[k] == old(self).queue@[k + 1]);
                }
            }
        }
        proof {
            let q0 = old(self).queue_v();
            assert(q0[i as int].action_number == e.action_number);
            assert(forall|j: int| 0 <= j < q0.len() ==> q0[i as int].start_time <= #[trigger] q0[j].start_time);
        }
        Some(e.action_number)
    }
}

} // verus!
