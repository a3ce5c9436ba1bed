use vstd::prelude::*;

use crate::controller::{
    apply_all, apply_round, apply_step, restores_recorded, candidate_list, cooling_down,
    eligible_pred, eligible_processes, is_eligible, ApplyState, ControllerView,
};
use crate::models::{policy_error, ActionResult, Policy, PriorityChange, ProcessSnapshot, SystemSnapshot};
use crate::report::{action_line, actions_summary};
use crate::text::{decimal, decimal_digits, digits_value, all_digits, parse_i32, digit_char, is_digit};
use crate::ranking::{
    by_cpu_desc, cpu_key, first_n, keys_distinct, lemma_by_cpu_desc_keeps_distinct,
    lemma_by_cpu_desc_sorted_permutation, lemma_filter_keeps_distinct, lemma_filter_same_multiset,
    lemma_sorted_arrangement_unique, pid_key, sorted_by_cpu_desc,
};

verus! {

/// `r` asks to lower process `p` to the background niceness of `policy`,
/// from a known niceness below it.
pub open spec fn lowers(r: PriorityChange, p: ProcessSnapshot, policy: Policy) -> bool {
    &&& p.pid == r.pid
    &&& p.name == r.name
    &&& p.nice is Some
    &&& p.nice->0 < policy.background_nice
    &&& r.target_nice == policy.background_nice
}

/// The decisions on `candidates` keep the requests made before them and add
/// only requests that lower a candidate: each names a candidate whose known
/// niceness is below the background niceness, and asks for exactly that.
proof fn lemma_requests_lower_candidates(
    st0: ApplyState,
    policy: Policy,
    candidates: Seq<ProcessSnapshot>,
    now_ns: u64,
)
    ensures
        ({
            let st = apply_all(st0, policy, candidates, now_ns);
            &&& st0.requests.len() <= st.requests.len() <= st0.requests.len() + candidates.len()
            &&& st.requests.take(st0.requests.len() as int) == st0.requests
            &&& forall|k: int|
                #![trigger st.requests[k]]
                st0.requests.len() <= k < st.requests.len() ==> exists|i: int| 0 <= i < candidates.len() && lowers(st.requests[k], #[trigger] candidates[i], policy)
        }),
    decreases candidates.len(),
{
    if candidates.len() > 0 {
        let prev = candidates.drop_last();
        lemma_requests_lower_candidates(st0, policy, prev, now_ns);
        let mid = apply_all(st0, policy, prev, now_ns);
        let st = apply_all(st0, policy, candidates, now_ns);
        assert(st == apply_step(mid, policy, candidates.last(), now_ns));
        assert forall|k: int| #![trigger st.requests[k]] st0.requests.len() <= k < st.requests.len() implies exists|i: int| 0 <= i < candidates.len() && lowers(st.requests[k], #[trigger] candidates[i], policy) by {
            if k < mid.requests.len() {
                assert(st.requests[k] == mid.requests[k]);
                let i = choose|i: int| 0 <= i < prev.len() && lowers(mid.requests[k], #[trigger] prev[i], policy);
                assert(candidates[i] == prev[i]);
            } else {
                assert(candidates[candidates.len() - 1] == candidates.last());
            }
        }
        assert(st.requests.take(st0.requests.len() as int) =~= st0.requests) by {
            assert(mid.requests.take(st0.requests.len() as int) == st0.requests);
        }
    } else {
        assert(st0.requests.take(st0.requests.len() as int) =~= st0.requests);
    }
}

/// Once a niceness is remembered for a process it is kept; a niceness
/// remembered by these decisions is the known niceness of a candidate with
/// that pid; every process asked to change has a remembered niceness and
/// was last changed at `now_ns`.
proof fn lemma_record_keeping(
    st0: ApplyState,
    policy: Policy,
    candidates: Seq<ProcessSnapshot>,
    now_ns: u64,
)
    ensures
        ({
            let st = apply_all(st0, policy, candidates, now_ns);
            &&& forall|pid: u32|
                #[trigger] st0.original_nice.contains_key(pid) ==> st.original_nice.contains_key(pid)
                    && st.original_nice[pid] == st0.original_nice[pid]
            &&& forall|pid: u32|
                #[trigger] st.original_nice.contains_key(pid) && !st0.original_nice.contains_key(pid)
                    ==> exists|i: int|
                    0 <= i < candidates.len() && (#[trigger] candidates[i]).pid == pid
                        && candidates[i].nice == Some(st.original_nice[pid])
            &&& forall|pid: u32|
                #[trigger] st.original_nice.contains_key(pid) && !st0.original_nice.contains_key(pid)
                    ==> exists|k: int|
                    st0.requests.len() <= k < st.requests.len() && #[trigger] st.requests[k].pid == pid
            &&& forall|k: int|
                st0.requests.len() <= k < st.requests.len() ==> {
                    &&& st.original_nice.contains_key(#[trigger] st.requests[k].pid)
                    &&& st.last_action_ns.contains_key(st.requests[k].pid)
                    &&& st.last_action_ns[st.requests[k].pid] == now_ns
                }
        }),
    decreases candidates.len(),
{
    if candidates.len() > 0 {
        let prev = candidates.drop_last();
        lemma_record_keeping(st0, policy, prev, now_ns);
        lemma_requests_lower_candidates(st0, policy, prev, now_ns);
        let mid = apply_all(st0, policy, prev, now_ns);
        let st = apply_all(st0, policy, candidates, now_ns);
        let p = candidates.last();
        assert(st == apply_step(mid, policy, p, now_ns));
        assert forall|pid: u32|
            #[trigger] st.original_nice.contains_key(pid) && !st0.original_nice.contains_key(pid)
                implies exists|i: int|
                0 <= i < candidates.len() && (#[trigger] candidates[i]).pid == pid
                    && candidates[i].nice == Some(st.original_nice[pid]) by {
            if mid.original_nice.contains_key(pid) {
                let i = choose|i: int|
                    0 <= i < prev.len() && (#[trigger] prev[i]).pid == pid && prev[i].nice == Some(
                        mid.original_nice[pid],
                    );
                assert(candidates[i] == prev[i]);
            } else {
                assert(candidates[candidates.len() - 1] == p);
            }
        }
        assert forall|pid: u32|
            #[trigger] st.original_nice.contains_key(pid) && !st0.original_nice.contains_key(pid)
                implies exists|k: int|
                st0.requests.len() <= k < st.requests.len() && #[trigger] st.requests[k].pid == pid by {
            if mid.original_nice.contains_key(pid) {
                let k = choose|k: int|
                    st0.requests.len() <= k < mid.requests.len() && #[trigger] mid.requests[k].pid == pid;
                assert(st.requests.len() >= mid.requests.len());
                assert(st.requests[k] == mid.requests[k]);
                assert(st.requests[k].pid == pid);
                assert(st0.requests.len() <= k < st.requests.len());
            } else {
                assert(st != mid);
                assert(pid == p.pid);
                assert(st.requests.len() == mid.requests.len() + 1);
                assert(st.requests[mid.requests.len() as int].pid == pid);
                assert(mid.requests.len() >= st0.requests.len());
            }
        }
        assert forall|k: int| st0.requests.len() <= k < st.requests.len() implies {
            &&& st.original_nice.contains_key(#[trigger] st.requests[k].pid)
            &&& st.last_action_ns.contains_key(st.requests[k].pid)
            &&& st.last_action_ns[st.requests[k].pid] == now_ns
        } by {
            if k < mid.requests.len() {
                assert(st.requests[k] == mid.requests[k]);
            }
        }
    }
}

/// While a process cools down, the decisions of a round leave it alone: no
/// request names it and its last-change time stays.
pub proof fn lemma_cooling_process_untouched(
    st0: ApplyState,
    policy: Policy,
    candidates: Seq<ProcessSnapshot>,
    now_ns: u64,
    pid: u32,
)
    requires
        cooling_down(st0.last_action_ns, pid, now_ns, policy.cooldown_ms),
    ensures
        ({
            let st = apply_all(st0, policy, candidates, now_ns);
            &&& st.last_action_ns.contains_key(pid)
            &&& st.last_action_ns[pid] == st0.last_action_ns[pid]
            &&& forall|k: int|
                st0.requests.len() <= k < st.requests.len() ==> (#[trigger] st.requests[k]).pid != pid
        }),
    decreases candidates.len(),
{
    if candidates.len() > 0 {
        let prev = candidates.drop_last();
        lemma_cooling_process_untouched(st0, policy, prev, now_ns, pid);
        let mid = apply_all(st0, policy, prev, now_ns);
        let st = apply_all(st0, policy, candidates, now_ns);
        assert(st == apply_step(mid, policy, candidates.last(), now_ns));
        assert forall|k: int| st0.requests.len() <= k < st.requests.len() implies (
        #[trigger] st.requests[k]).pid != pid by {
            if k < mid.requests.len() {
                assert(st.requests[k] == mid.requests[k]);
            }
        }
    }
}

/// Candidate selection: nothing is chosen while the machine is below the
/// system threshold; at most `max_actions_per_cycle` processes are chosen;
/// each is a process of the sample that is eligible (not the watcher,
/// at or above the per-process threshold, not a zombie or dead); they come
/// highest CPU share first; and they are the first of a highest-first
/// ordering of all eligible processes, so no eligible process left out uses
/// more CPU than one chosen.
pub proof fn law_candidates(
    policy: Policy,
    own_pid: u32,
    system: SystemSnapshot,
    processes: Seq<ProcessSnapshot>,
)
    ensures
        ({
            let c = candidate_list(policy, own_pid, system, processes);
            let ordered = by_cpu_desc(eligible_processes(policy, own_pid, processes));
            &&& system.cpu_percent_x100 < policy.system_threshold_x100 ==> c.len() == 0
            &&& c.len() <= policy.max_actions_per_cycle
            &&& forall|i: int|
                0 <= i < c.len() ==> is_eligible(policy, own_pid, #[trigger] c[i])
                    && processes.contains(c[i])
            &&& sorted_by_cpu_desc(c)
            &&& system.cpu_percent_x100 >= policy.system_threshold_x100 ==> {
                &&& ordered.to_multiset() == eligible_processes(policy, own_pid, processes).to_multiset()
                &&& c == first_n(ordered, policy.max_actions_per_cycle as int)
                &&& forall|i: int, j: int|
                    0 <= i < c.len() <= j < ordered.len() ==> #[trigger] ordered[j].cpu_percent_x100
                        <= #[trigger] c[i].cpu_percent_x100
            }
        }),
{
    broadcast use vstd::seq_lib::group_to_multiset_ensures;
    broadcast use vstd::seq_lib::group_filter_ensures;

    let e = eligible_processes(policy, own_pid, processes);
    let ordered = by_cpu_desc(e);
    let c = candidate_list(policy, own_pid, system, processes);
    lemma_by_cpu_desc_sorted_permutation(e);
    if system.cpu_percent_x100 >= policy.system_threshold_x100 {
        assert(c == first_n(ordered, policy.max_actions_per_cycle as int));
        assert forall|i: int| 0 <= i < c.len() implies is_eligible(policy, own_pid, #[trigger] c[i])
            && processes.contains(c[i]) by {
            assert(c[i] == ordered[i]);
            assert(ordered.to_multiset().count(ordered[i]) > 0);
            assert(e.contains(ordered[i]));
            let j = choose|j: int| 0 <= j < e.len() && e[j] == ordered[i];
            processes.lemma_filter_pred(eligible_pred(policy, own_pid), j);
            processes.lemma_filter_contains_rev(eligible_pred(policy, own_pid), e[j]);
        }
        assert forall|i: int, j: int| 0 <= i < c.len() <= j < ordered.len() implies #[trigger] ordered[j].cpu_percent_x100
            <= #[trigger] c[i].cpu_percent_x100 by {
            assert(c[i] == ordered[i]);
        }
        assert forall|i: int, j: int| 0 <= i < j < c.len() implies c[i].cpu_percent_x100
            >= c[j].cpu_percent_x100 by {
            assert(c[i] == ordered[i] && c[j] == ordered[j]);
        }
    }
}

/// A round lowers only candidates, and only toward the background niceness:
/// it makes at most `max_actions_per_cycle` requests, each naming a
/// candidate of the sample whose known niceness is below the background
/// niceness, and each asking for the background niceness, which lies in
/// 1..=19.
pub proof fn law_round_only_lowers_candidates(
    c: ControllerView,
    system: SystemSnapshot,
    processes: Seq<ProcessSnapshot>,
    now_ns: u64,
)
    requires
        c.wf(),
    ensures
        ({
            let st = apply_round(c, system, processes, now_ns);
            let cands = candidate_list(c.policy, c.own_pid, system, processes);
            &&& st.requests.len() <= c.policy.max_actions_per_cycle
            &&& forall|k: int|
                0 <= k < st.requests.len() ==> {
                    &&& 1 <= (#[trigger] st.requests[k]).target_nice <= 19
                    &&& st.requests[k].target_nice == c.policy.background_nice
                    &&& exists|i: int|
                        0 <= i < cands.len() && lowers(st.requests[k], #[trigger] cands[i], c.policy)
                }
        }),
{
    let cands = candidate_list(c.policy, c.own_pid, system, processes);
    let st0 = ApplyState {
        requests: Seq::empty(),
        last_action_ns: c.last_action_ns,
        original_nice: c.original_nice,
    };
    lemma_requests_lower_candidates(st0, c.policy, cands, now_ns);
    law_candidates(c.policy, c.own_pid, system, processes);
}

/// Restoration is owed for every change: after a round, each process it
/// asked to change has a remembered niceness; a niceness remembered before
/// the round is kept unchanged; and one first remembered in the round is the
/// niceness the sample showed for that process (its niceness before the
/// watcher changed it).
pub proof fn law_round_records_original_nice(
    c: ControllerView,
    system: SystemSnapshot,
    processes: Seq<ProcessSnapshot>,
    now_ns: u64,
)
    requires
        c.wf(),
    ensures
        ({
            let st = apply_round(c, system, processes, now_ns);
            &&& forall|k: int|
                0 <= k < st.requests.len() ==> st.original_nice.contains_key(
                    (#[trigger] st.requests[k]).pid,
                )
            &&& forall|pid: u32|
                #[trigger] c.original_nice.contains_key(pid) ==> st.original_nice.contains_key(pid)
                    && st.original_nice[pid] == c.original_nice[pid]
            &&& forall|pid: u32|
                #[trigger] st.original_nice.contains_key(pid) && !c.original_nice.contains_key(pid)
                    ==> exists|i: int|
                    0 <= i < processes.len() && (#[trigger] processes[i]).pid == pid
                        && processes[i].nice == Some(st.original_nice[pid])
        }),
{
    broadcast use vstd::seq_lib::group_to_multiset_ensures;

    let cands = candidate_list(c.policy, c.own_pid, system, processes);
    let st0 = ApplyState {
        requests: Seq::empty(),
        last_action_ns: c.last_action_ns,
        original_nice: c.original_nice,
    };
    let st = apply_round(c, system, processes, now_ns);
    lemma_record_keeping(st0, c.policy, cands, now_ns);
    law_candidates(c.policy, c.own_pid, system, processes);
    assert(st == apply_all(st0, c.policy, cands, now_ns));
    assert forall|pid: u32| #[trigger] c.original_nice.contains_key(pid) implies st.original_nice.contains_key(pid)
        && st.original_nice[pid] == c.original_nice[pid] by {
        assert(st0.original_nice.contains_key(pid));
    }
    assert forall|pid: u32|
        #[trigger] st.original_nice.contains_key(pid) && !c.original_nice.contains_key(pid)
            implies exists|i: int|
            0 <= i < processes.len() && (#[trigger] processes[i]).pid == pid
                && processes[i].nice == Some(st.original_nice[pid]) by {
        let i = choose|i: int|
            0 <= i < cands.len() && (#[trigger] cands[i]).pid == pid && cands[i].nice == Some(
                st.original_nice[pid],
            );
        assert(processes.contains(cands[i]));
        let j = choose|j: int| 0 <= j < processes.len() && processes[j] == cands[i];
        assert(processes[j].pid == pid);
    }
}

/// `restored` puts `pid` back to the niceness it had before the round
/// started: the one recorded then if there was one, and otherwise the one
/// the sample showed for it.
pub open spec fn puts_back(
    c: ControllerView,
    processes: Seq<ProcessSnapshot>,
    restored: Seq<PriorityChange>,
    pid: u32,
) -> bool {
    exists|j: int|
        0 <= j < restored.len() && #[trigger] restored[j].pid == pid && (if c.original_nice.contains_key(
            pid,
        ) {
            restored[j].target_nice == c.original_nice[pid]
        } else {
            exists|i: int|
                0 <= i < processes.len() && (#[trigger] processes[i]).pid == pid
                    && processes[i].nice == Some(restored[j].target_nice)
        })
}

/// What the controller hands back for restoration covers every change of a
/// round: when `restored` puts back exactly what is recorded after the
/// round, it puts back each process the round asked to change.
pub proof fn law_restore_covers_round(
    c: ControllerView,
    system: SystemSnapshot,
    processes: Seq<ProcessSnapshot>,
    now_ns: u64,
    restored: Seq<PriorityChange>,
)
    requires
        c.wf(),
        restores_recorded(apply_round(c, system, processes, now_ns).original_nice, restored),
    ensures
        forall|k: int|
            0 <= k < apply_round(c, system, processes, now_ns).requests.len() ==> puts_back(
                c,
                processes,
                restored,
                (#[trigger] apply_round(c, system, processes, now_ns).requests[k]).pid,
            ),
{
    let st = apply_round(c, system, processes, now_ns);
    law_round_records_original_nice(c, system, processes, now_ns);
    assert forall|k: int| 0 <= k < st.requests.len() implies puts_back(
        c,
        processes,
        restored,
        (#[trigger] st.requests[k]).pid,
    ) by {
        let pid = st.requests[k].pid;
        assert(st.original_nice.contains_key(pid));
        let j = choose|j: int| 0 <= j < restored.len() && #[trigger] restored[j].pid == pid;
        assert(restored[j].target_nice == st.original_nice[pid]);
    }
}

proof fn lemma_decimal_digits_read_back(n: nat)
    ensures
        decimal_digits(n).len() > 0,
        all_digits(decimal_digits(n)),
        digits_value(decimal_digits(n)) == n,
        is_digit(decimal_digits(n)[0]),
    decreases n,
{
    if n < 10 {
        let s = decimal_digits(n);
        assert(s.drop_last() =~= Seq::<char>::empty());
        assert(digit_char(n as int) as u32 == 48 + n);
        assert(s.last() == digit_char(n as int));
        assert(digits_value(s.drop_last()) == 0);
        assert(digits_value(s) == digits_value(s.drop_last()) * 10 + (s.last() as u32 - 48));
    } else {
        lemma_decimal_digits_read_back(n / 10);
        let s = decimal_digits(n);
        let d = digit_char((n % 10) as int);
        assert(d as u32 == 48 + n % 10);
        assert(s.drop_last() =~= decimal_digits(n / 10));
        assert(s.last() == d);
        assert((n / 10) * 10 + n % 10 == n);
        assert(digits_value(s) == digits_value(s.drop_last()) * 10 + (s.last() as u32 - 48));
        assert(s[0] == decimal_digits(n / 10)[0]);
        assert forall|i: int| 0 <= i < s.len() implies #[trigger] is_digit(s[i]) by {
            if i < s.len() - 1 {
                assert(s[i] == decimal_digits(n / 10)[i]);
            }
        }
    }
}

/// Reading a niceness back: `parse_i32` recovers every `i32` from the
/// decimal text that `Display` writes for it.
pub proof fn law_parse_reads_decimal(n: i32)
    ensures
        parse_i32(decimal(n as int)) == Some(n),
{
    if n < 0 {
        lemma_decimal_digits_read_back((-n) as nat);
        let s = decimal(n as int);
        assert(s.drop_first() =~= decimal_digits((-n) as nat));
    } else {
        lemma_decimal_digits_read_back(n as nat);
        let s = decimal(n as int);
        assert(is_digit(s[0]));
    }
}

/// One round of a watch session: a sample and the controller's clock when
/// it was taken.
pub struct Round {
    pub system: SystemSnapshot,
    pub processes: Seq<ProcessSnapshot>,
    pub now_ns: u64,
}

/// The decisions of round `r` from state `c`.
pub open spec fn round_result(c: ControllerView, r: Round) -> ApplyState {
    apply_round(c, r.system, r.processes, r.now_ns)
}

/// The state after round `r` from state `c`.
pub open spec fn after_round(c: ControllerView, r: Round) -> ControllerView {
    ControllerView {
        policy: c.policy,
        own_pid: c.own_pid,
        last_action_ns: round_result(c, r).last_action_ns,
        original_nice: round_result(c, r).original_nice,
    }
}

/// The state after the rounds `rs`, in order, from state `c`.
pub open spec fn after_rounds(c: ControllerView, rs: Seq<Round>) -> ControllerView
    decreases rs.len(),
{
    if rs.len() == 0 {
        c
    } else {
        after_round(after_rounds(c, rs.drop_last()), rs.last())
    }
}

/// The requests of round `i` of the session `rs` run from `c`.
pub open spec fn session_requests(c: ControllerView, rs: Seq<Round>, i: int) -> Seq<PriorityChange> {
    round_result(after_rounds(c, rs.take(i)), rs[i]).requests
}

/// Whether one of the first `m` rounds of `rs` asked to change `pid`.
pub open spec fn requested_before(c: ControllerView, rs: Seq<Round>, pid: u32, m: int) -> bool {
    exists|i: int, k: int|
        0 <= i < m && 0 <= k < session_requests(c, rs, i).len() && #[trigger] session_requests(
            c,
            rs,
            i,
        )[k].pid == pid
}

/// Whether some round of `rs` asked to change `pid`.
pub open spec fn requested_in_session(c: ControllerView, rs: Seq<Round>, pid: u32) -> bool {
    requested_before(c, rs, pid, rs.len() as int)
}

/// Round `i` is the first of `rs` to ask to change `pid`, and its sample
/// showed `pid` with niceness `n`.
pub open spec fn first_requested_at(
    c: ControllerView,
    rs: Seq<Round>,
    pid: u32,
    i: int,
    n: i32,
) -> bool {
    &&& 0 <= i < rs.len()
    &&& exists|k: int| 0 <= k < session_requests(c, rs, i).len() && #[trigger] session_requests(c, rs, i)[k].pid == pid
    &&& !requested_before(c, rs, pid, i)
    &&& exists|j: int|
        0 <= j < rs[i].processes.len() && (#[trigger] rs[i].processes[j]).pid == pid
            && rs[i].processes[j].nice == Some(n)
}

proof fn lemma_after_rounds_step(c: ControllerView, rs: Seq<Round>, i: int)
    requires
        0 <= i < rs.len(),
    ensures
        after_rounds(c, rs.take(i + 1)) == after_round(after_rounds(c, rs.take(i)), rs[i]),
        after_rounds(c, rs.take(i)).policy == c.policy,
        after_rounds(c, rs.take(i)).own_pid == c.own_pid,
    decreases i,
{
    assert(rs.take(i + 1).drop_last() =~= rs.take(i));
    assert(rs.take(i + 1).last() == rs[i]);
    if i > 0 {
        lemma_after_rounds_step(c, rs, i - 1);
    } else {
        assert(rs.take(0) =~= Seq::<Round>::empty());
    }
}

/// Round-level record keeping, in terms of a round's state.
proof fn lemma_round_record(e: ControllerView, r: Round)
    ensures
        ({
            let st = round_result(e, r);
            &&& forall|pid: u32|
                #[trigger] e.original_nice.contains_key(pid) ==> st.original_nice.contains_key(pid)
                    && st.original_nice[pid] == e.original_nice[pid]
            &&& forall|pid: u32|
                #[trigger] st.original_nice.contains_key(pid) && !e.original_nice.contains_key(pid)
                    ==> (exists|k: int| 0 <= k < st.requests.len() && #[trigger] st.requests[k].pid == pid)
                    && exists|j: int|
                    0 <= j < r.processes.len() && (#[trigger] r.processes[j]).pid == pid
                        && r.processes[j].nice == Some(st.original_nice[pid])
            &&& forall|k: int|
                0 <= k < st.requests.len() ==> st.original_nice.contains_key(
                    (#[trigger] st.requests[k]).pid,
                )
        }),
{
    let cands = candidate_list(e.policy, e.own_pid, r.system, r.processes);
    let st0 = ApplyState {
        requests: Seq::empty(),
        last_action_ns: e.last_action_ns,
        original_nice: e.original_nice,
    };
    let st = round_result(e, r);
    lemma_record_keeping(st0, e.policy, cands, r.now_ns);
    law_candidates(e.policy, e.own_pid, r.system, r.processes);
    assert(st == apply_all(st0, e.policy, cands, r.now_ns));
    assert forall|pid: u32| #[trigger] e.original_nice.contains_key(pid) implies st.original_nice.contains_key(pid)
        && st.original_nice[pid] == e.original_nice[pid] by {
        assert(st0.original_nice.contains_key(pid));
    }
    assert forall|pid: u32|
        #[trigger] st.original_nice.contains_key(pid) && !e.original_nice.contains_key(pid)
            implies (exists|k: int| 0 <= k < st.requests.len() && #[trigger] st.requests[k].pid == pid)
            && exists|j: int|
            0 <= j < r.processes.len() && (#[trigger] r.processes[j]).pid == pid
                && r.processes[j].nice == Some(st.original_nice[pid]) by {
        assert(!st0.original_nice.contains_key(pid));
        let i = choose|i: int|
            0 <= i < cands.len() && (#[trigger] cands[i]).pid == pid && cands[i].nice == Some(
                st.original_nice[pid],
            );
        assert(r.processes.contains(cands[i]));
        let j = choose|j: int| 0 <= j < r.processes.len() && r.processes[j] == cands[i];
        assert(r.processes[j].pid == pid);
    }
}

proof fn lemma_session_record_prefix(c: ControllerView, rs: Seq<Round>, m: int)
    requires
        0 <= m <= rs.len(),
    ensures
        ({
            let e = after_rounds(c, rs.take(m));
            &&& forall|pid: u32|
                #[trigger] c.original_nice.contains_key(pid) ==> e.original_nice.contains_key(pid)
                    && e.original_nice[pid] == c.original_nice[pid]
            &&& forall|pid: u32|
                #[trigger] e.original_nice.contains_key(pid) <==> (c.original_nice.contains_key(pid)
                    || requested_before(c, rs, pid, m))
            &&& forall|pid: u32|
                #[trigger] e.original_nice.contains_key(pid) && !c.original_nice.contains_key(pid)
                    ==> exists|i: int| i < m && first_requested_at(c, rs, pid, i, e.original_nice[pid])
        }),
    decreases m,
{
    if m == 0 {
        assert(rs.take(0) =~= Seq::<Round>::empty());
    } else {
        let i = m - 1;
        lemma_session_record_prefix(c, rs, i);
        lemma_after_rounds_step(c, rs, i);
        let em = after_rounds(c, rs.take(i));
        let e = after_rounds(c, rs.take(m));
        let st = round_result(em, rs[i]);
        lemma_round_record(em, rs[i]);
        assert(session_requests(c, rs, i) == st.requests);
        assert forall|pid: u32| #[trigger] e.original_nice.contains_key(pid) <==> (c.original_nice.contains_key(pid)
            || requested_before(c, rs, pid, m)) by {
            if e.original_nice.contains_key(pid) && !em.original_nice.contains_key(pid) {
                let k = choose|k: int| 0 <= k < st.requests.len() && #[trigger] st.requests[k].pid == pid;
                assert(session_requests(c, rs, i)[k].pid == pid);
            }
            if requested_before(c, rs, pid, m) && !requested_before(c, rs, pid, i) {
                let (i2, k) = choose|i2: int, k: int|
                    0 <= i2 < m && 0 <= k < session_requests(c, rs, i2).len() && #[trigger] session_requests(
                        c,
                        rs,
                        i2,
                    )[k].pid == pid;
                if i2 < i {
                    assert(requested_before(c, rs, pid, i));
                }
                assert(st.requests[k].pid == pid);
            }
            if requested_before(c, rs, pid, i) || c.original_nice.contains_key(pid) {
                assert(em.original_nice.contains_key(pid));
            }
            if e.original_nice.contains_key(pid) && em.original_nice.contains_key(pid) && !c.original_nice.contains_key(pid) {
                assert(requested_before(c, rs, pid, i));
                let (i2, k) = choose|i2: int, k: int|
                    0 <= i2 < i && 0 <= k < session_requests(c, rs, i2).len() && #[trigger] session_requests(
                        c,
                        rs,
                        i2,
                    )[k].pid == pid;
                assert(requested_before(c, rs, pid, m));
            }
        }
        assert forall|pid: u32|
            #[trigger] e.original_nice.contains_key(pid) && !c.original_nice.contains_key(pid)
                implies exists|i3: int| i3 < m && first_requested_at(c, rs, pid, i3, e.original_nice[pid]) by {
            if em.original_nice.contains_key(pid) {
                let i3 = choose|i3: int| i3 < i && first_requested_at(c, rs, pid, i3, em.original_nice[pid]);
                assert(first_requested_at(c, rs, pid, i3, e.original_nice[pid]));
            } else {
                assert(!requested_before(c, rs, pid, i));
                let k = choose|k: int| 0 <= k < st.requests.len() && #[trigger] st.requests[k].pid == pid;
                assert(session_requests(c, rs, i)[k].pid == pid);
                assert(first_requested_at(c, rs, pid, i, e.original_nice[pid]));
            }
        }
    }
}

/// The record over a session: after any number of rounds, a niceness is
/// remembered for a process exactly when it was remembered at the start or
/// some round asked to change it; one remembered at the start is kept; and
/// one remembered during the session is the niceness shown in the sample of
/// the first round that asked to change it.
pub proof fn law_session_record(c: ControllerView, rs: Seq<Round>)
    ensures
        ({
            let e = after_rounds(c, rs);
            &&& forall|pid: u32|
                #[trigger] c.original_nice.contains_key(pid) ==> e.original_nice.contains_key(pid)
                    && e.original_nice[pid] == c.original_nice[pid]
            &&& forall|pid: u32|
                #[trigger] e.original_nice.contains_key(pid) <==> (c.original_nice.contains_key(pid)
                    || requested_in_session(c, rs, pid))
            &&& forall|pid: u32|
                #[trigger] e.original_nice.contains_key(pid) && !c.original_nice.contains_key(pid)
                    ==> exists|i: int| first_requested_at(c, rs, pid, i, e.original_nice[pid])
        }),
{
    lemma_session_record_prefix(c, rs, rs.len() as int);
    assert(rs.take(rs.len() as int) =~= rs);
}

/// Restoration over a session that starts with nothing recorded (a new
/// controller, or one just restored): what `restore` hands back after any
/// number of rounds names exactly the processes that some round asked to
/// change, each once, and puts each back to the niceness shown in the
/// sample of the first round that asked to change it.
pub proof fn law_session_restore(c: ControllerView, rs: Seq<Round>, restored: Seq<PriorityChange>)
    requires
        c.original_nice == Map::<u32, i32>::empty(),
        restores_recorded(after_rounds(c, rs).original_nice, restored),
    ensures
        forall|j: int|
            0 <= j < restored.len() ==> requested_in_session(c, rs, (#[trigger] restored[j]).pid)
                && exists|i: int| first_requested_at(c, rs, restored[j].pid, i, restored[j].target_nice),
        forall|pid: u32|
            requested_in_session(c, rs, pid) ==> exists|j: int|
                0 <= j < restored.len() && (#[trigger] restored[j]).pid == pid && forall|j2: int|
                    0 <= j2 < restored.len() && #[trigger] restored[j2].pid == pid ==> j2 == j,
{
    law_session_record(c, rs);
    let e = after_rounds(c, rs);
    assert forall|j: int| 0 <= j < restored.len() implies requested_in_session(c, rs, (#[trigger] restored[j]).pid)
        && exists|i: int| first_requested_at(c, rs, restored[j].pid, i, restored[j].target_nice) by {
        let pid = restored[j].pid;
        assert(e.original_nice.contains_key(pid));
        assert(!c.original_nice.contains_key(pid));
    }
    assert forall|pid: u32| requested_in_session(c, rs, pid) implies exists|j: int|
        0 <= j < restored.len() && (#[trigger] restored[j]).pid == pid && forall|j2: int|
            0 <= j2 < restored.len() && #[trigger] restored[j2].pid == pid ==> j2 == j by {
        assert(e.original_nice.contains_key(pid));
        let j = choose|j: int| 0 <= j < restored.len() && #[trigger] restored[j].pid == pid;
        assert forall|j2: int| 0 <= j2 < restored.len() && #[trigger] restored[j2].pid == pid implies j2 == j by {
            if j2 < j {
                assert(restored[j2].pid != restored[j].pid);
            } else if j < j2 {
                assert(restored[j].pid != restored[j2].pid);
            }
        }
    }
}

proof fn lemma_rounds_keep_cooling(c1: ControllerView, later: Seq<Round>, pid: u32, t0: u64, m: int)
    requires
        0 <= m <= later.len(),
        c1.last_action_ns.contains_key(pid),
        c1.last_action_ns[pid] == t0,
        forall|i: int|
            0 <= i < later.len() ==> t0 <= #[trigger] later[i].now_ns && later[i].now_ns - t0
                < c1.policy.cooldown_ms * 1_000_000,
    ensures
        after_rounds(c1, later.take(m)).last_action_ns.contains_key(pid),
        after_rounds(c1, later.take(m)).last_action_ns[pid] == t0,
        forall|i: int, j: int|
            0 <= i < m && 0 <= j < session_requests(c1, later, i).len() ==> (#[trigger] session_requests(
                c1,
                later,
                i,
            )[j]).pid != pid,
    decreases m,
{
    if m == 0 {
        assert(later.take(0) =~= Seq::<Round>::empty());
    } else {
        let i = m - 1;
        lemma_rounds_keep_cooling(c1, later, pid, t0, i);
        lemma_after_rounds_step(c1, later, i);
        let em = after_rounds(c1, later.take(i));
        let r = later[i];
        let st0 = ApplyState {
            requests: Seq::empty(),
            last_action_ns: em.last_action_ns,
            original_nice: em.original_nice,
        };
        assert(cooling_down(st0.last_action_ns, pid, r.now_ns, em.policy.cooldown_ms));
        lemma_cooling_process_untouched(
            st0,
            em.policy,
            candidate_list(em.policy, em.own_pid, r.system, r.processes),
            r.now_ns,
            pid,
        );
        assert(round_result(em, r) == apply_all(
            st0,
            em.policy,
            candidate_list(em.policy, em.own_pid, r.system, r.processes),
            r.now_ns,
        ));
        assert forall|i2: int, j: int|
            0 <= i2 < m && 0 <= j < session_requests(c1, later, i2).len() implies (#[trigger] session_requests(
                c1,
                later,
                i2,
            )[j]).pid != pid by {
            if i2 == i {
                assert(session_requests(c1, later, i) == round_result(em, r).requests);
            }
        }
    }
}

/// Cooldown across a session: once a round asks to change a process at
/// time `t0`, no later round asks again while less than `cooldown_ms` has
/// passed since `t0`, however many rounds come in between.
pub proof fn law_cooldown_spans_rounds(c: ControllerView, first: Round, k: int, later: Seq<Round>)
    requires
        0 <= k < round_result(c, first).requests.len(),
        forall|i: int|
            0 <= i < later.len() ==> first.now_ns <= #[trigger] later[i].now_ns && later[i].now_ns
                - first.now_ns < c.policy.cooldown_ms * 1_000_000,
    ensures
        forall|i: int, j: int|
            0 <= i < later.len() && 0 <= j < session_requests(after_round(c, first), later, i).len()
                ==> (#[trigger] session_requests(after_round(c, first), later, i)[j]).pid
                != round_result(c, first).requests[k].pid,
{
    let st0 = ApplyState {
        requests: Seq::empty(),
        last_action_ns: c.last_action_ns,
        original_nice: c.original_nice,
    };
    lemma_record_keeping(
        st0,
        c.policy,
        candidate_list(c.policy, c.own_pid, first.system, first.processes),
        first.now_ns,
    );
    let pid = round_result(c, first).requests[k].pid;
    lemma_rounds_keep_cooling(after_round(c, first), later, pid, first.now_ns, later.len() as int);
}

proof fn lemma_apply_all_concat(
    st0: ApplyState,
    policy: Policy,
    a: Seq<ProcessSnapshot>,
    b: Seq<ProcessSnapshot>,
    now_ns: u64,
)
    ensures
        apply_all(st0, policy, a + b, now_ns) == apply_all(apply_all(st0, policy, a, now_ns), policy, b, now_ns),
    decreases b.len(),
{
    if b.len() == 0 {
        assert(a + b =~= a);
    } else {
        assert((a + b).drop_last() =~= a + b.drop_last());
        assert((a + b).last() == b.last());
        lemma_apply_all_concat(st0, policy, a, b.drop_last(), now_ns);
    }
}

proof fn lemma_pid_untouched(
    st0: ApplyState,
    policy: Policy,
    cs: Seq<ProcessSnapshot>,
    now_ns: u64,
    pid: u32,
)
    requires
        forall|j: int| 0 <= j < cs.len() ==> (#[trigger] cs[j]).pid != pid,
    ensures
        ({
            let st = apply_all(st0, policy, cs, now_ns);
            &&& st.last_action_ns.contains_key(pid) == st0.last_action_ns.contains_key(pid)
            &&& st0.last_action_ns.contains_key(pid) ==> st.last_action_ns[pid] == st0.last_action_ns[pid]
            &&& st.requests.take(st0.requests.len() as int) == st0.requests
            &&& st.requests.len() >= st0.requests.len()
            &&& forall|k: int|
                st0.requests.len() <= k < st.requests.len() ==> (#[trigger] st.requests[k]).pid != pid
        }),
    decreases cs.len(),
{
    if cs.len() > 0 {
        let prev = cs.drop_last();
        lemma_pid_untouched(st0, policy, prev, now_ns, pid);
        let mid = apply_all(st0, policy, prev, now_ns);
        let st = apply_all(st0, policy, cs, now_ns);
        assert(cs.last() == cs[cs.len() - 1]);
        assert(st == apply_step(mid, policy, cs.last(), now_ns));
        assert forall|k: int| st0.requests.len() <= k < st.requests.len() implies (#[trigger] st.requests[k]).pid != pid by {
            if k < mid.requests.len() {
                assert(st.requests[k] == mid.requests[k]);
            }
        }
        assert(st.requests.take(st0.requests.len() as int) =~= st0.requests) by {
            assert forall|k: int| 0 <= k < st0.requests.len() implies st.requests[k] == st0.requests[k] by {
                assert(st.requests[k] == mid.requests[k]);
                assert(mid.requests.take(st0.requests.len() as int)[k] == st0.requests[k]);
            }
        }
    } else {
        assert(st0.requests.take(st0.requests.len() as int) =~= st0.requests);
    }
}

/// Exactly one change per fresh candidate: in a sample whose pids are
/// distinct, a candidate with a known niceness below the background
/// niceness that is not cooling down gets exactly one request in the round.
pub proof fn law_one_request_per_fresh_candidate(
    c: ControllerView,
    system: SystemSnapshot,
    processes: Seq<ProcessSnapshot>,
    now_ns: u64,
    i: int,
)
    requires
        keys_distinct(processes, pid_key()),
        0 <= i < candidate_list(c.policy, c.own_pid, system, processes).len(),
        candidate_list(c.policy, c.own_pid, system, processes)[i].nice is Some,
        candidate_list(c.policy, c.own_pid, system, processes)[i].nice->0 < c.policy.background_nice,
        !cooling_down(
            c.last_action_ns,
            candidate_list(c.policy, c.own_pid, system, processes)[i].pid,
            now_ns,
            c.policy.cooldown_ms,
        ),
    ensures
        ({
            let st = apply_round(c, system, processes, now_ns);
            let pid = candidate_list(c.policy, c.own_pid, system, processes)[i].pid;
            exists|k: int|
                0 <= k < st.requests.len() && st.requests[k].pid == pid && forall|k2: int|
                    0 <= k2 < st.requests.len() && #[trigger] st.requests[k2].pid == pid ==> k2 == k
        }),
{
    let cands = candidate_list(c.policy, c.own_pid, system, processes);
    let e = eligible_processes(c.policy, c.own_pid, processes);
    lemma_filter_keeps_distinct(processes, eligible_pred(c.policy, c.own_pid), pid_key());
    lemma_by_cpu_desc_keeps_distinct(e, pid_key());
    let ordered = by_cpu_desc(e);
    assert(keys_distinct(cands, pid_key())) by {
        assert forall|a: int, b: int| #![trigger cands[a], cands[b]] 0 <= a < b < cands.len() implies pid_key()(cands[a]) != pid_key()(cands[b]) by {
            assert(cands[a] == ordered[a] && cands[b] == ordered[b]);
        }
    }
    let p = cands[i];
    let pid = p.pid;
    let st0 = ApplyState {
        requests: Seq::empty(),
        last_action_ns: c.last_action_ns,
        original_nice: c.original_nice,
    };
    let pre = cands.take(i);
    let upto = cands.take(i + 1);
    let rest = cands.skip(i + 1);
    assert(cands =~= upto + rest);
    assert forall|j: int| 0 <= j < pre.len() implies (#[trigger] pre[j]).pid != pid by {
        assert(pre[j] == cands[j]);
        assert(pid_key()(cands[j]) != pid_key()(cands[i]));
    }
    assert forall|j: int| 0 <= j < rest.len() implies (#[trigger] rest[j]).pid != pid by {
        assert(rest[j] == cands[i + 1 + j]);
        assert(pid_key()(cands[i]) != pid_key()(cands[i + 1 + j]));
    }
    lemma_pid_untouched(st0, c.policy, pre, now_ns, pid);
    let mid = apply_all(st0, c.policy, pre, now_ns);
    assert(upto.drop_last() =~= pre);
    assert(upto.last() == p);
    let after = apply_all(st0, c.policy, upto, now_ns);
    assert(after == apply_step(mid, c.policy, p, now_ns));
    assert(!cooling_down(mid.last_action_ns, pid, now_ns, c.policy.cooldown_ms));
    let r = mid.requests.len() as int;
    assert(after.requests == mid.requests.push(
        PriorityChange { pid: p.pid, name: p.name, target_nice: c.policy.background_nice },
    ));
    lemma_pid_untouched(after, c.policy, rest, now_ns, pid);
    lemma_apply_all_concat(st0, c.policy, upto, rest, now_ns);
    let st = apply_round(c, system, processes, now_ns);
    assert(st == apply_all(after, c.policy, rest, now_ns));
    assert(st.requests[r] == after.requests.take(after.requests.len() as int)[r]);
    assert(st.requests[r].pid == pid);
    assert forall|k2: int| 0 <= k2 < st.requests.len() && #[trigger] st.requests[k2].pid == pid implies k2 == r by {
        if k2 < r {
            assert(st.requests[k2] == after.requests.take(after.requests.len() as int)[k2]);
            assert(after.requests[k2] == mid.requests[k2]);
        }
    }
}

/// The result of candidate selection does not depend on the order of the
/// sample when no two eligible processes have the same CPU share.
pub proof fn law_candidates_ignore_sample_order(
    policy: Policy,
    own_pid: u32,
    system: SystemSnapshot,
    processes: Seq<ProcessSnapshot>,
    reordered: Seq<ProcessSnapshot>,
)
    requires
        reordered.to_multiset() == processes.to_multiset(),
        keys_distinct(eligible_processes(policy, own_pid, processes), cpu_key()),
    ensures
        candidate_list(policy, own_pid, system, reordered) == candidate_list(policy, own_pid, system, processes),
{
    let e1 = eligible_processes(policy, own_pid, processes);
    let e2 = eligible_processes(policy, own_pid, reordered);
    lemma_filter_same_multiset(processes, reordered, eligible_pred(policy, own_pid));
    lemma_by_cpu_desc_sorted_permutation(e1);
    lemma_by_cpu_desc_sorted_permutation(e2);
    lemma_by_cpu_desc_keeps_distinct(e1, cpu_key());
    lemma_sorted_arrangement_unique(by_cpu_desc(e1), by_cpu_desc(e2));
}

/// Capture times read back as numbers: the text for a reading of `n`
/// seconds is all decimal digits and spells `n`, so a later reading never
/// gives a text that spells a smaller number.
pub proof fn law_timestamp_text_spells_seconds(n: u64)
    ensures
        all_digits(decimal(n as int)),
        digits_value(decimal(n as int)) == n,
{
    lemma_decimal_digits_read_back(n as nat);
}

/// The policy rules, with their bounds: a policy is accepted exactly when
/// its interval is positive, both thresholds lie in 0..=100% (0..=10000
/// hundredths) each on its own, the background niceness lies in 1..=19, the
/// cooldown is not negative and at least one action per cycle is allowed.
pub proof fn law_policy_bounds(p: Policy)
    ensures
        policy_error(p) is None <==> {
            &&& p.interval_ms > 0
            &&& 0 <= p.system_threshold_x100 <= 10000
            &&& 0 <= p.process_threshold_x100 <= 10000
            &&& 1 <= p.background_nice <= 19
            &&& p.cooldown_ms >= 0
            &&& p.max_actions_per_cycle > 0
        },
{
}

/// Only exited processes are excluded by their state: a process of the
/// sample that is not the watcher, is at or above the per-process threshold
/// and whose state is neither `Zombie` nor `Dead` (whatever else it is) is
/// eligible; and a process in state `Zombie` or `Dead` never is.
pub proof fn law_only_exited_states_excluded(
    policy: Policy,
    own_pid: u32,
    processes: Seq<ProcessSnapshot>,
    i: int,
)
    requires
        0 <= i < processes.len(),
    ensures
        processes[i].pid != own_pid && processes[i].cpu_percent_x100 >= policy.process_threshold_x100
            && processes[i].status@ != "Zombie"@ && processes[i].status@ != "Dead"@
            ==> eligible_processes(policy, own_pid, processes).contains(processes[i]),
        processes[i].status@ == "Zombie"@ || processes[i].status@ == "Dead"@
            ==> !eligible_processes(policy, own_pid, processes).contains(processes[i]),
{
    let pred = eligible_pred(policy, own_pid);
    let e = eligible_processes(policy, own_pid, processes);
    if pred(processes[i]) {
        processes.lemma_filter_contains(pred, i);
    }
    if e.contains(processes[i]) {
        let j = choose|j: int| 0 <= j < e.len() && e[j] == processes[i];
        processes.lemma_filter_pred(pred, j);
    }
}

/// Under pressure, with no more eligible processes than actions allowed per
/// cycle, every process of the sample that is not the watcher, is at or
/// above the per-process threshold and is neither `Zombie` nor `Dead` is a
/// candidate.
pub proof fn law_every_eligible_process_is_chosen_when_room(
    policy: Policy,
    own_pid: u32,
    system: SystemSnapshot,
    processes: Seq<ProcessSnapshot>,
    i: int,
)
    requires
        0 <= i < processes.len(),
        system.cpu_percent_x100 >= policy.system_threshold_x100,
        eligible_processes(policy, own_pid, processes).len() <= policy.max_actions_per_cycle,
        processes[i].pid != own_pid,
        processes[i].cpu_percent_x100 >= policy.process_threshold_x100,
        processes[i].status@ != "Zombie"@,
        processes[i].status@ != "Dead"@,
    ensures
        candidate_list(policy, own_pid, system, processes).contains(processes[i]),
{
    broadcast use vstd::seq_lib::group_to_multiset_ensures;

    law_only_exited_states_excluded(policy, own_pid, processes, i);
    let e = eligible_processes(policy, own_pid, processes);
    lemma_by_cpu_desc_sorted_permutation(e);
    let o = by_cpu_desc(e);
    assert(e.to_multiset().count(processes[i]) > 0);
    assert(o.to_multiset().count(processes[i]) > 0);
    assert(candidate_list(policy, own_pid, system, processes) == o);
}

/// The one-line summary of a single action is `name[pid]: detail`.
pub proof fn law_summary_of_one_action(actions: Seq<ActionResult>)
    requires
        actions.len() == 1,
    ensures
        actions_summary(actions) == actions[0].name@ + "["@ + decimal(actions[0].pid as int) + "]: "@
            + actions[0].detail@,
{
}

/// Each further action is added to the summary after `, `: the summary of
/// two or more actions is the summary of all but the last, then `, `, then
/// the last action's line.
pub proof fn law_summary_separates_every_action(actions: Seq<ActionResult>)
    requires
        actions.len() >= 2,
    ensures
        actions_summary(actions) == actions_summary(actions.drop_last()) + ", "@ + action_line(
            actions.last(),
        ),
{
    let f = |a: ActionResult| action_line(a);
    assert(actions.drop_last().map_values(f) =~= actions.map_values(f).drop_last());
    assert(actions.map_values(f).last() == action_line(actions.last()));
}

} // verus!
