use std::collections::HashMap;
use std::time::Instant;
use vstd::prelude::*;

use crate::clock::{instant_now, nanos_since};
use crate::models::{policy_error, Policy, PriorityChange, ProcessSnapshot, SystemSnapshot};
use crate::ranking::{by_cpu_desc, first_n, sort_by_cpu_desc};
use crate::text::{decimal, decimal_string};

verus! {

broadcast use vstd::std_specs::hash::group_hash_axioms;

/// A process state that no priority change can help: it has exited.
pub open spec fn is_terminal_status(status: Seq<char>) -> bool {
    status == "Zombie"@ || status == "Dead"@
}

/// Whether `p` may be deprioritised at all under `policy`: not the watcher
/// itself, at or above the per-process threshold, and still running.
pub open spec fn is_eligible(policy: Policy, own_pid: u32, p: ProcessSnapshot) -> bool {
    &&& p.pid != own_pid
    &&& p.cpu_percent_x100 >= policy.process_threshold_x100
    &&& !is_terminal_status(p.status@)
}

pub open spec fn eligible_pred(policy: Policy, own_pid: u32) -> spec_fn(ProcessSnapshot) -> bool {
    |p: ProcessSnapshot| is_eligible(policy, own_pid, p)
}

/// The processes of `processes` that are eligible, in their order.
pub open spec fn eligible_processes(
    policy: Policy,
    own_pid: u32,
    processes: Seq<ProcessSnapshot>,
) -> Seq<ProcessSnapshot> {
    processes.filter(eligible_pred(policy, own_pid))
}

/// The processes chosen from one sample: none while the whole machine is
/// below the system threshold; otherwise the eligible ones, highest CPU
/// share first (ties in sample order), at most `max_actions_per_cycle`.
pub open spec fn candidate_list(
    policy: Policy,
    own_pid: u32,
    system: SystemSnapshot,
    processes: Seq<ProcessSnapshot>,
) -> Seq<ProcessSnapshot> {
    if system.cpu_percent_x100 < policy.system_threshold_x100 {
        Seq::empty()
    } else {
        first_n(
            by_cpu_desc(eligible_processes(policy, own_pid, processes)),
            policy.max_actions_per_cycle as int,
        )
    }
}

/// Whether a watch goes on: no stop was asked for, and the time limit, if
/// there is one, has not been reached.
pub fn keep_watching(stop_requested: bool, elapsed_ns: u64, limit_ns: Option<u64>) -> (b: bool)
    ensures
        b == (!stop_requested && match limit_ns {
            None => true,
            Some(limit) => elapsed_ns < limit,
        }),
{
    if stop_requested {
        return false;
    }
    match limit_ns {
        None => true,
        Some(limit) => elapsed_ns < limit,
    }
}

/// The abstract state of a controller.
pub struct ControllerView {
    pub policy: Policy,
    pub own_pid: u32,
    /// When each process was last changed, in nanoseconds of the controller's clock.
    pub last_action_ns: Map<u32, u64>,
    /// The niceness each changed process had before its first change.
    pub original_nice: Map<u32, i32>,
}

impl ControllerView {
    pub open spec fn wf(self) -> bool {
        &&& self.policy.valid()
        &&& self.last_action_ns.dom() == self.original_nice.dom()
    }
}

/// What a round of `apply_at` has decided so far.
pub struct ApplyState {
    pub requests: Seq<PriorityChange>,
    pub last_action_ns: Map<u32, u64>,
    pub original_nice: Map<u32, i32>,
}

/// The time since `then`, in nanoseconds; zero for a `then` after `now_ns`.
pub open spec fn elapsed_ns(then: u64, now_ns: u64) -> int {
    if now_ns >= then { now_ns - then } else { 0 }
}

/// Whether `pid` was changed less than `cooldown_ms` milliseconds before `now_ns`.
pub open spec fn cooling_down(last: Map<u32, u64>, pid: u32, now_ns: u64, cooldown_ms: i64) -> bool {
    &&& last.contains_key(pid)
    &&& elapsed_ns(last[pid], now_ns) < cooldown_ms * 1_000_000
}

/// The decision for one candidate at `now_ns`: skip it while it cools down,
/// when its niceness is unknown, or when it is already at or past the
/// background niceness; otherwise ask for the background niceness, note
/// the time, and remember its niceness unless one is already remembered.
pub open spec fn apply_step(st: ApplyState, policy: Policy, p: ProcessSnapshot, now_ns: u64) -> ApplyState {
    if cooling_down(st.last_action_ns, p.pid, now_ns, policy.cooldown_ms) {
        st
    } else {
        match p.nice {
            None => st,
            Some(n) => if n >= policy.background_nice {
                st
            } else {
                ApplyState {
                    requests: st.requests.push(
                        PriorityChange { pid: p.pid, name: p.name, target_nice: policy.background_nice },
                    ),
                    last_action_ns: st.last_action_ns.insert(p.pid, now_ns),
                    original_nice: if st.original_nice.contains_key(p.pid) {
                        st.original_nice
                    } else {
                        st.original_nice.insert(p.pid, n)
                    },
                }
            },
        }
    }
}

/// The decisions for `candidates`, in order.
pub open spec fn apply_all(
    st: ApplyState,
    policy: Policy,
    candidates: Seq<ProcessSnapshot>,
    now_ns: u64,
) -> ApplyState
    decreases candidates.len(),
{
    if candidates.len() == 0 {
        st
    } else {
        apply_step(apply_all(st, policy, candidates.drop_last(), now_ns), policy, candidates.last(), now_ns)
    }
}

/// A round of the controller at `now_ns` from state `c` on a sample.
pub open spec fn apply_round(
    c: ControllerView,
    system: SystemSnapshot,
    processes: Seq<ProcessSnapshot>,
    now_ns: u64,
) -> ApplyState {
    apply_all(
        ApplyState { requests: Seq::empty(), last_action_ns: c.last_action_ns, original_nice: c.original_nice },
        c.policy,
        candidate_list(c.policy, c.own_pid, system, processes),
        now_ns,
    )
}

/// `changes` puts back each recorded process once, to its recorded
/// niceness, named by its pid in decimal, and nothing else.
pub open spec fn restores_recorded(recorded: Map<u32, i32>, changes: Seq<PriorityChange>) -> bool {
    &&& changes.len() == recorded.len()
    &&& forall|i: int|
        0 <= i < changes.len() ==> {
            &&& recorded.contains_key(#[trigger] changes[i].pid)
            &&& changes[i].target_nice == recorded[changes[i].pid]
            &&& changes[i].name@ == decimal(changes[i].pid as int)
        }
    &&& forall|i: int, j: int|
        0 <= i < j < changes.len() ==> #[trigger] changes[i].pid != #[trigger] changes[j].pid
    &&& forall|pid: u32|
        #[trigger] recorded.contains_key(pid) ==> exists|i: int|
            0 <= i < changes.len() && #[trigger] changes[i].pid == pid
}

/// Chooses heavy background processes and keeps the record needed to put
/// their priorities back.
pub struct Controller {
    policy: Policy,
    current_pid: u32,
    started: Instant,
    record: ChangeRecord,
}

/// When each changed process was last changed, and the niceness it had
/// before its first change.
struct ChangeRecord {
    last_action_at: HashMap<u32, u64>,
    original_nice: HashMap<u32, i32>,
}

impl ChangeRecord {
    fn empty() -> (r: ChangeRecord)
        ensures
            r.last_action_at@ == Map::<u32, u64>::empty(),
            r.original_nice@ == Map::<u32, i32>::empty(),
    {
        ChangeRecord { last_action_at: HashMap::new(), original_nice: HashMap::new() }
    }
}

impl View for Controller {
    type V = ControllerView;

    closed spec fn view(&self) -> ControllerView {
        ControllerView {
            policy: self.policy,
            own_pid: self.current_pid,
            last_action_ns: self.record.last_action_at@,
            original_nice: self.record.original_nice@,
        }
    }
}

impl Controller {
    /// Every controller has a valid policy and records the same processes in
    /// both of its maps.
    #[verifier::type_invariant]
    closed spec fn inv(&self) -> bool {
        self@.wf()
    }

    /// A controller for `policy`, which must be valid, run as process
    /// `current_pid` (which it never selects).
    pub fn new(policy: Policy, current_pid: u32) -> (r: Result<Controller, String>)
        ensures
            match r {
                Ok(c) => {
                    &&& policy_error(policy) is None
                    &&& c@.wf()
                    &&& c@.policy == policy
                    &&& c@.own_pid == current_pid
                    &&& c@.last_action_ns == Map::<u32, u64>::empty()
                    &&& c@.original_nice == Map::<u32, i32>::empty()
                },
                Err(e) => policy_error(policy) == Some(e@),
            },
    {
        match policy.validate() {
            Err(e) => Err(e),
            Ok(()) => Ok(
                Controller {
                    policy,
                    current_pid,
                    started: instant_now(),
                    record: ChangeRecord::empty(),
                },
            ),
        }
    }

    pub fn policy(&self) -> (p: Policy)
        ensures
            p == self@.policy,
    {
        self.policy
    }

    /// Nanoseconds of this controller's clock, counted from its creation.
    pub fn now_ns(&self) -> u64 {
        nanos_since(&self.started)
    }

    /// The processes to deprioritise on this sample, highest CPU share first.
    pub fn candidates(&self, system: &SystemSnapshot, processes: &[ProcessSnapshot]) -> (r: Vec<
        ProcessSnapshot,
    >)
        ensures
            r@ == candidate_list(self@.policy, self@.own_pid, *system, processes@),
    {
        if system.cpu_percent_x100 < self.policy.system_threshold_x100 {
            return Vec::new();
        }
        let zombie = "Zombie".to_string();
        let dead = "Dead".to_string();
        let ghost pred = eligible_pred(self@.policy, self@.own_pid);
        let mut selected: Vec<ProcessSnapshot> = Vec::new();
        let mut i: usize = 0;
        assert(processes@.take(0) =~= Seq::<ProcessSnapshot>::empty());
        while i < processes.len()
            invariant
                i <= processes.len(),
                zombie@ == "Zombie"@,
                dead@ == "Dead"@,
                pred == eligible_pred(self@.policy, self@.own_pid),
                selected@ == processes@.take(i as int).filter(pred),
            decreases processes.len() - i,
        {
            let p = &processes[i];
            let keep = p.pid != self.current_pid && p.cpu_percent_x100
                >= self.policy.process_threshold_x100 && !(p.status == zombie) && !(p.status
                == dead);
            proof {
                reveal_with_fuel(Seq::filter, 1);
                assert(processes@.take(i + 1).drop_last() =~= processes@.take(i as int));
                assert(processes@.take(i + 1).last() == processes@[i as int]);
                assert(keep == pred(processes@[i as int]));
            }
            if keep {
                selected.push(p.duplicate());
            }
            i = i + 1;
        }
        assert(processes@.take(processes.len() as int) =~= processes@);
        let mut sorted = sort_by_cpu_desc(&selected);
        sorted.truncate(self.policy.max_actions_per_cycle);
        sorted
    }

    /// One round at `now_ns` (nanoseconds of this controller's clock): for
    /// each candidate in order, decides whether to lower its priority, and
    /// records the change. The returned requests are for the operating
    /// system to carry out; what it answers does not alter the record.
    pub fn apply_at(&mut self, system: &SystemSnapshot, processes: &[ProcessSnapshot], now_ns: u64) -> (changes: Vec<PriorityChange>)
        ensures
            final(self)@.wf(),
            final(self)@.policy == old(self)@.policy,
            final(self)@.own_pid == old(self)@.own_pid,
            changes@ == apply_round(old(self)@, *system, processes@, now_ns).requests,
            final(self)@.last_action_ns == apply_round(old(self)@, *system, processes@, now_ns).last_action_ns,
            final(self)@.original_nice == apply_round(old(self)@, *system, processes@, now_ns).original_nice,
    {
        proof {
            use_type_invariant(&*self);
        }
        let cands = self.candidates(system, processes);
        let ghost start = self@;
        let ghost init = ApplyState {
            requests: Seq::empty(),
            last_action_ns: start.last_action_ns,
            original_nice: start.original_nice,
        };
        let mut record = ChangeRecord::empty();
        core::mem::swap(&mut record, &mut self.record);
        let cooldown_ns: u128 = (self.policy.cooldown_ms as u128) * 1_000_000;
        let background_nice = self.policy.background_nice;
        let mut changes: Vec<PriorityChange> = Vec::new();
        let mut i: usize = 0;
        assert(cands@.take(0) =~= Seq::<ProcessSnapshot>::empty());
        while i < cands.len()
            invariant
                i <= cands.len(),
                cands@ == candidate_list(start.policy, start.own_pid, *system, processes@),
                start.wf(),
                cooldown_ns == start.policy.cooldown_ms * 1_000_000,
                background_nice == start.policy.background_nice,
                record.last_action_at@.dom() == record.original_nice@.dom(),
                changes@ == apply_all(init, start.policy, cands@.take(i as int), now_ns).requests,
                record.last_action_at@ == apply_all(init, start.policy, cands@.take(i as int), now_ns).last_action_ns,
                record.original_nice@ == apply_all(init, start.policy, cands@.take(i as int), now_ns).original_nice,
            decreases cands.len() - i,
        {
            let p = &cands[i];
            let cooling = match record.last_action_at.get(&p.pid) {
                Some(prev) => {
                    let elapsed: u64 = if now_ns >= *prev {
                        now_ns - *prev
                    } else {
                        0
                    };
                    (elapsed as u128) < cooldown_ns
                },
                None => false,
            };
            if !cooling {
                match p.nice {
                    None => {},
                    Some(n) => {
                        if n < background_nice {
                            if !record.original_nice.contains_key(&p.pid) {
                                record.original_nice.insert(p.pid, n);
                            }
                            record.last_action_at.insert(p.pid, now_ns);
                            assert(record.last_action_at@.dom() =~= record.original_nice@.dom());
                            changes.push(
                                PriorityChange {
                                    pid: p.pid,
                                    name: p.name.clone(),
                                    target_nice: background_nice,
                                },
                            );
                        }
                    },
                }
            }
            proof {
                assert(cands@.take(i + 1).drop_last() =~= cands@.take(i as int));
                assert(cands@.take(i + 1).last() == cands@[i as int]);
            }
            i = i + 1;
        }
        assert(cands@.take(cands.len() as int) =~= cands@);
        self.record = record;
        changes
    }

    /// One round now, by this controller's clock; see `apply_at`.
    pub fn apply(&mut self, system: &SystemSnapshot, processes: &[ProcessSnapshot]) -> (changes: Vec<PriorityChange>)
        ensures
            final(self)@.wf(),
            final(self)@.policy == old(self)@.policy,
            final(self)@.own_pid == old(self)@.own_pid,
            exists|now_ns: u64| {
                let st = #[trigger] apply_round(old(self)@, *system, processes@, now_ns);
                &&& changes@ == st.requests
                &&& final(self)@.last_action_ns == st.last_action_ns
                &&& final(self)@.original_nice == st.original_nice
            },
    {
        let now_ns = self.now_ns();
        self.apply_at(system, processes, now_ns)
    }

    /// Hands back every recorded change, each as a request to put the
    /// process back to the niceness it had before its first change (named
    /// by its pid in decimal), and forgets them all. The order is that of a
    /// walk over a hash map, which no clause fixes.
    pub fn restore(&mut self) -> (changes: Vec<PriorityChange>)
        ensures
            final(self)@.wf(),
            final(self)@.policy == old(self)@.policy,
            final(self)@.own_pid == old(self)@.own_pid,
            final(self)@.last_action_ns == Map::<u32, u64>::empty(),
            final(self)@.original_nice == Map::<u32, i32>::empty(),
            restores_recorded(old(self)@.original_nice, changes@),
    {
        proof {
            use_type_invariant(&*self);
        }
        let ghost m = self.record.original_nice@;
        let mut changes: Vec<PriorityChange> = Vec::new();
        for entry in it: self.record.original_nice.iter()
            invariant
                m == self.record.original_nice@,
                it.seq().len() == m.dom().len(),
                it.seq().no_duplicates(),
                forall|k: int|
                    0 <= k < it.seq().len() ==> m.contains_key(*(#[trigger] it.seq()[k]).0)
                        && m[*it.seq()[k].0] == *it.seq()[k].1,
                forall|pid: u32| #[trigger] m.contains_key(pid) ==> it.seq().contains((&pid, &m[pid])),
                changes@.len() == it.index(),
                forall|k: int|
                    0 <= k < it.index() ==> {
                        &&& (#[trigger] changes@[k]).pid == *it.seq()[k].0
                        &&& changes@[k].target_nice == *it.seq()[k].1
                        &&& changes@[k].name@ == decimal(changes@[k].pid as int)
                        &&& m.contains_key(changes@[k].pid)
                        &&& changes@[k].target_nice == m[changes@[k].pid]
                    },
                forall|i: int, j: int|
                    0 <= i < j < changes@.len() ==> #[trigger] changes@[i].pid != #[trigger] changes@[j].pid,
                forall|pid: u32|
                    #[trigger] m.contains_key(pid) ==> (exists|k: int|
                        0 <= k < changes@.len() && #[trigger] changes@[k].pid == pid) || (exists|k: int|
                        it.index() <= k < it.seq().len() && *it.seq()[k].0 == pid),
        {
            let (pid, nice) = entry;
            let ghost before = changes@;
            changes.push(PriorityChange { pid: *pid, name: decimal_string(*pid as i64), target_nice: *nice });
            proof {
                let v = it.seq();
                let n = before.len() as int;
                assert(changes@[n].pid == *v[n].0);
                assert forall|i: int, j: int|
                    0 <= i < j < changes@.len() implies #[trigger] changes@[i].pid != #[trigger] changes@[j].pid by {
                    if j == n && changes@[i].pid == changes@[j].pid {
                        assert(changes@[i] == before[i]);
                        assert(v[i] == v[j]);
                    }
                    if j < n {
                        assert(changes@[i] == before[i] && changes@[j] == before[j]);
                    }
                }
                assert forall|q: u32|
                    #[trigger] m.contains_key(q) implies (exists|k: int|
                        0 <= k < changes@.len() && #[trigger] changes@[k].pid == q) || (exists|k: int|
                        n + 1 <= k < v.len() && *v[k].0 == q) by {
                    if exists|k: int| 0 <= k < before.len() && #[trigger] before[k].pid == q {
                        let k = choose|k: int| 0 <= k < before.len() && #[trigger] before[k].pid == q;
                        assert(changes@[k] == before[k]);
                    } else {
                        let k = choose|k: int| n <= k < v.len() && *v[k].0 == q;
                        if k == n {
                            assert(changes@[n].pid == q);
                        }
                    }
                }
            }
        }
        self.record = ChangeRecord::empty();
        changes
    }
}

} // verus!
