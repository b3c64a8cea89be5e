//! The restart supervisor: the state machine that decides, on each
//! filesystem event, whether to restart the managed command, and what
//! sequence of process operations the restart performs. The operations
//! themselves (signalling, reaping, sleeping, spawning) are carried out
//! by the caller, which reports the resulting child back.

use vstd::prelude::*;
use crate::debounce::DEBOUNCE_MS;
use crate::debounce::accepts;
use crate::debounce::debounce_accepts;
use crate::event::EventKind;
use crate::event::is_trigger;

verus! {

/// Grace period between reaping a terminated child and spawning the
/// next one, in milliseconds, so that the OS can release resources the
/// killed process held.
pub const GRACE_MS: u64 = 700;

/// One process operation of a restart, to be carried out in order by
/// the caller.
#[derive(Clone, Copy, Debug, PartialEq, Eq, Structural)]
pub enum Op {
    /// Send the graceful termination signal to the process group whose
    /// id is `pgid` (a negative value: the platform convention for
    /// addressing a whole group). Failure to send is ignored.
    SignalGroup { pgid: i32 },
    /// Block until the leader process `pid` has been reaped.
    Reap { pid: i32 },
    /// Hold for `ms` milliseconds before going on.
    Sleep { ms: u64 },
    /// Spawn the configured command as the leader of a new process
    /// group, inheriting standard output and standard error.
    Spawn,
}

/// The operations an accepted trigger performs, given the previously
/// managed child's pid, if any: terminate the old child's whole group,
/// reap its leader, hold for the grace period, then spawn anew; with no
/// previous child, spawn at once.
pub open spec fn restart_plan(prev: Option<i32>) -> Seq<Op> {
    match prev {
        Option::None => seq![Op::Spawn],
        Option::Some(p) => seq![
            Op::SignalGroup { pgid: (-p) as i32 },
            Op::Reap { pid: p },
            Op::Sleep { ms: GRACE_MS },
            Op::Spawn,
        ],
    }
}

/// The supervisor's whole state: the time of the last accepted trigger
/// and the pid of the currently managed child, each optional. At most
/// one child is ever managed.
pub struct Supervisor {
    /// Time of the last accepted trigger, in milliseconds.
    pub last_trigger: Option<u64>,
    /// Pid of the leader of the currently managed child's process
    /// group, if a child is currently managed.
    pub child: Option<i32>,
}

impl Supervisor {
    /// A managed child's pid is strictly positive, so that the negation
    /// used to address its process group is well defined and negative.
    pub open spec fn wf(self) -> bool {
        self.child matches Some(p) ==> 0 < p
    }

    /// A fresh supervisor: no trigger accepted yet, no child managed.
    pub fn new() -> (s: Supervisor)
        ensures
            s.wf(),
            s.last_trigger is None,
            s.child is None,
    {
        Supervisor { last_trigger: None, child: None }
    }

    /// Handles one filesystem event at time `now`. Returns the
    /// operations to carry out, in order: empty when the event's kind
    /// is no trigger or the debounce filter rejects it (the state is
    /// then unchanged), and the restart plan for the previous child
    /// otherwise. After a non-empty plan the caller carries the
    /// operations out and reports the spawned child via `record_spawn`.
    pub fn on_event(&mut self, kind: EventKind, now: u64) -> (plan: Vec<Op>)
        requires
            old(self).wf(),
        ensures
            final(self).wf(),
            (is_trigger(kind) && debounce_accepts(old(self).last_trigger, now))
                == (plan@.len() > 0),
            !(is_trigger(kind) && debounce_accepts(old(self).last_trigger, now))
                ==> *final(self) == *old(self),
            (is_trigger(kind) && debounce_accepts(old(self).last_trigger, now)) ==> {
                &&& plan@ == restart_plan(old(self).child)
                &&& final(self).last_trigger == Some(now)
                &&& final(self).child is None
            },
    {
        let mut plan: Vec<Op> = Vec::new();
        if !kind.triggers() {
            return plan;
        }
        if !accepts(self.last_trigger, now) {
            return plan;
        }
        self.last_trigger = Some(now);
        match self.child {
            Option::Some(p) => {
                plan.push(Op::SignalGroup { pgid: -p });
                plan.push(Op::Reap { pid: p });
                plan.push(Op::Sleep { ms: GRACE_MS });
            },
            Option::None => {},
        }
        plan.push(Op::Spawn);
        self.child = None;
        assert(plan@ =~= restart_plan(old(self).child));
        plan
    }

    /// Records the child that the caller spawned while carrying out a
    /// plan. A spawn may only be recorded while no child is managed, so
    /// two instances never run under management at once.
    pub fn record_spawn(&mut self, pid: i32)
        requires
            old(self).wf(),
            old(self).child is None,
            0 < pid,
        ensures
            final(self).wf(),
            final(self).child == Some(pid),
            final(self).last_trigger == old(self).last_trigger,
    {
        self.child = Some(pid);
    }
}

/// The times at which a supervisor fires a restart over a sequence of
/// events, each a kind with its arrival time, starting from a given
/// last-accepted time. This is `on_event`'s effect on `last_trigger`,
/// folded over the whole sequence: an event fires exactly when its kind
/// is a trigger and the debounce filter accepts its time, and a firing
/// becomes the new last-accepted time.
pub open spec fn fired_times(events: Seq<(EventKind, u64)>, last: Option<u64>) -> Seq<u64>
    decreases events.len(),
{
    if events.len() == 0 {
        Seq::empty()
    } else if is_trigger(events[0].0) && debounce_accepts(last, events[0].1) {
        seq![events[0].1] + fired_times(events.drop_first(), Some(events[0].1))
    } else {
        fired_times(events.drop_first(), last)
    }
}

/// Debounce law at the supervisor: over any sequence of events, any
/// two distinct restarts fire at least the quiet window apart — at
/// most one restart within any window of `DEBOUNCE_MS` milliseconds
/// measured from a firing — and no restart fires within the quiet
/// window of a previously accepted trigger the run started from.
pub proof fn lemma_fired_times_spaced(events: Seq<(EventKind, u64)>, last: Option<u64>)
    ensures
        forall|i: int, j: int|
            #![trigger fired_times(events, last)[i], fired_times(events, last)[j]]
            0 <= i < j < fired_times(events, last).len()
                ==> fired_times(events, last)[i] + DEBOUNCE_MS <= fired_times(events, last)[j],
        last matches Some(t) ==> forall|j: int|
            0 <= j < fired_times(events, last).len()
                ==> t + DEBOUNCE_MS <= #[trigger] fired_times(events, last)[j],
    decreases events.len(),
{
    if events.len() == 0 {
    } else if is_trigger(events[0].0) && debounce_accepts(last, events[0].1) {
        let rest = fired_times(events.drop_first(), Some(events[0].1));
        lemma_fired_times_spaced(events.drop_first(), Some(events[0].1));
        assert(fired_times(events, last) == seq![events[0].1] + rest);
        assert forall|i: int, j: int|
            0 <= i < j < fired_times(events, last).len()
                implies fired_times(events, last)[i] + DEBOUNCE_MS
                    <= fired_times(events, last)[j] by {
            assert(fired_times(events, last)[j] == rest[j - 1]);
            if i > 0 {
                assert(fired_times(events, last)[i] == rest[i - 1]);
            }
        }
    } else {
        lemma_fired_times_spaced(events.drop_first(), last);
        assert(fired_times(events, last) == fired_times(events.drop_first(), last));
    }
}

/// Event-filtering law: an event of a kind that is no trigger never
/// contributes a firing, whatever its time — the fired times over a
/// sequence beginning with such an event are those of the rest.
pub proof fn lemma_non_trigger_never_fires(
    events: Seq<(EventKind, u64)>,
    last: Option<u64>,
)
    requires
        events.len() > 0,
        !is_trigger(events[0].0),
    ensures
        fired_times(events, last) == fired_times(events.drop_first(), last),
{
}

/// How many spawn operations a sequence of operations holds.
pub open spec fn spawn_count(plan: Seq<Op>) -> nat
    decreases plan.len(),
{
    if plan.len() == 0 {
        0
    } else {
        (if plan[0] is Spawn { 1nat } else { 0nat }) + spawn_count(plan.drop_first())
    }
}

/// How many reap operations a sequence of operations holds.
pub open spec fn reap_count(plan: Seq<Op>) -> nat
    decreases plan.len(),
{
    if plan.len() == 0 {
        0
    } else {
        (if plan[0] is Reap { 1nat } else { 0nat }) + reap_count(plan.drop_first())
    }
}

/// 1 when a child is managed, 0 otherwise.
pub open spec fn managed(child: Option<i32>) -> nat {
    if child is Some {
        1
    } else {
        0
    }
}

/// All operations a supervisor emits over a sequence of events, each
/// event a kind, an arrival time, and the pid its spawn returns if the
/// event fires a restart; every spawned child is recorded before the
/// next event, as the caller of `on_event` and `record_spawn` does.
pub open spec fn run_ops(
    events: Seq<(EventKind, u64, i32)>,
    last: Option<u64>,
    child: Option<i32>,
) -> Seq<Op>
    decreases events.len(),
{
    if events.len() == 0 {
        Seq::empty()
    } else if is_trigger(events[0].0) && debounce_accepts(last, events[0].1) {
        restart_plan(child)
            + run_ops(events.drop_first(), Some(events[0].1), Some(events[0].2))
    } else {
        run_ops(events.drop_first(), last, child)
    }
}

proof fn lemma_spawn_count_add(a: Seq<Op>, b: Seq<Op>)
    ensures
        spawn_count(a + b) == spawn_count(a) + spawn_count(b),
    decreases a.len(),
{
    if a.len() == 0 {
        assert(a + b =~= b);
    } else {
        assert((a + b).drop_first() =~= a.drop_first() + b);
        lemma_spawn_count_add(a.drop_first(), b);
        assert((a + b)[0] == a[0]);
    }
}

proof fn lemma_reap_count_add(a: Seq<Op>, b: Seq<Op>)
    ensures
        reap_count(a + b) == reap_count(a) + reap_count(b),
    decreases a.len(),
{
    if a.len() == 0 {
        assert(a + b =~= b);
    } else {
        assert((a + b).drop_first() =~= a.drop_first() + b);
        lemma_reap_count_add(a.drop_first(), b);
        assert((a + b)[0] == a[0]);
    }
}

proof fn lemma_counts_singleton(op: Op)
    ensures
        spawn_count(seq![op]) == (if op is Spawn { 1nat } else { 0nat }),
        reap_count(seq![op]) == (if op is Reap { 1nat } else { 0nat }),
{
    assert(seq![op].drop_first() =~= Seq::<Op>::empty());
    assert(spawn_count(Seq::<Op>::empty()) == 0);
    assert(reap_count(Seq::<Op>::empty()) == 0);
}

/// Within one restart plan, at every cut point the spawns so far
/// exceed the reaps so far by at most one beyond the child managed at
/// the start, and never fall short of them; over the whole plan,
/// exactly one instance is left unreaped.
proof fn lemma_plan_prefix_counts(prev: Option<i32>, n: int)
    requires
        0 <= n <= restart_plan(prev).len(),
    ensures
        reap_count(restart_plan(prev).take(n))
            <= managed(prev) + spawn_count(restart_plan(prev).take(n)),
        managed(prev) + spawn_count(restart_plan(prev).take(n))
            <= reap_count(restart_plan(prev).take(n)) + 1,
        n == restart_plan(prev).len()
            ==> managed(prev) + spawn_count(restart_plan(prev).take(n))
                == reap_count(restart_plan(prev).take(n)) + 1,
{
    let plan = restart_plan(prev);
    match prev {
        Option::None => {
            if n == 0 {
                assert(plan.take(n) =~= Seq::<Op>::empty());
            } else {
                assert(plan.take(n) =~= seq![Op::Spawn]);
                lemma_counts_singleton(Op::Spawn);
            }
        },
        Option::Some(p) => {
            let s0 = Op::SignalGroup { pgid: (-p) as i32 };
            let s1 = Op::Reap { pid: p };
            let s2 = Op::Sleep { ms: GRACE_MS };
            let s3 = Op::Spawn;
            lemma_counts_singleton(s0);
            lemma_counts_singleton(s1);
            lemma_counts_singleton(s2);
            lemma_counts_singleton(s3);
            if n == 0 {
                assert(plan.take(n) =~= Seq::<Op>::empty());
            } else if n == 1 {
                assert(plan.take(n) =~= seq![s0]);
            } else if n == 2 {
                assert(plan.take(n) =~= seq![s0] + seq![s1]);
                lemma_spawn_count_add(seq![s0], seq![s1]);
                lemma_reap_count_add(seq![s0], seq![s1]);
            } else if n == 3 {
                assert(plan.take(n) =~= (seq![s0] + seq![s1]) + seq![s2]);
                lemma_spawn_count_add(seq![s0], seq![s1]);
                lemma_reap_count_add(seq![s0], seq![s1]);
                lemma_spawn_count_add(seq![s0] + seq![s1], seq![s2]);
                lemma_reap_count_add(seq![s0] + seq![s1], seq![s2]);
            } else {
                assert(plan.take(n) =~= ((seq![s0] + seq![s1]) + seq![s2]) + seq![s3]);
                lemma_spawn_count_add(seq![s0], seq![s1]);
                lemma_reap_count_add(seq![s0], seq![s1]);
                lemma_spawn_count_add(seq![s0] + seq![s1], seq![s2]);
                lemma_reap_count_add(seq![s0] + seq![s1], seq![s2]);
                lemma_spawn_count_add((seq![s0] + seq![s1]) + seq![s2], seq![s3]);
                lemma_reap_count_add((seq![s0] + seq![s1]) + seq![s2], seq![s3]);
            }
        },
    }
}

/// At-most-one-child law over whole runs: over any sequence of events,
/// with every spawned child recorded, at every point of the emitted
/// operation sequence the instances spawned so far exceed those reaped
/// so far by at most one, counting a child managed at the start — at
/// no point do two instances run under management at once — and no
/// reap is ever emitted without an instance to reap.
pub proof fn lemma_at_most_one_live_child(
    events: Seq<(EventKind, u64, i32)>,
    last: Option<u64>,
    child: Option<i32>,
    n: int,
)
    requires
        0 <= n <= run_ops(events, last, child).len(),
    ensures
        reap_count(run_ops(events, last, child).take(n))
            <= managed(child) + spawn_count(run_ops(events, last, child).take(n)),
        managed(child) + spawn_count(run_ops(events, last, child).take(n))
            <= reap_count(run_ops(events, last, child).take(n)) + 1,
    decreases events.len(),
{
    let ops = run_ops(events, last, child);
    if events.len() == 0 {
        assert(ops.take(n) =~= Seq::<Op>::empty());
    } else if is_trigger(events[0].0) && debounce_accepts(last, events[0].1) {
        let plan = restart_plan(child);
        let rest = run_ops(events.drop_first(), Some(events[0].1), Some(events[0].2));
        assert(ops == plan + rest);
        if n <= plan.len() {
            assert(ops.take(n) =~= plan.take(n));
            lemma_plan_prefix_counts(child, n);
        } else {
            let m = n - plan.len();
            assert(ops.take(n) =~= plan + rest.take(m));
            lemma_spawn_count_add(plan, rest.take(m));
            lemma_reap_count_add(plan, rest.take(m));
            lemma_plan_prefix_counts(child, plan.len() as int);
            assert(plan.take(plan.len() as int) =~= plan);
            lemma_at_most_one_live_child(
                events.drop_first(),
                Some(events[0].1),
                Some(events[0].2),
                m,
            );
        }
    } else {
        assert(ops == run_ops(events.drop_first(), last, child));
        lemma_at_most_one_live_child(events.drop_first(), last, child, n);
    }
}

/// Restart-ordering law: every restart plan spawns exactly once, as
/// its last operation, and when a child was managed before, its leader
/// is reaped at some point strictly before the spawn — the previous
/// instance is fully terminated before the new one starts.
pub proof fn lemma_restart_terminates_before_spawn(prev: Option<i32>)
    ensures
        spawn_count(restart_plan(prev)) == 1,
        restart_plan(prev).last() == Op::Spawn,
        prev matches Some(p) ==> exists|i: int, j: int|
            0 <= i < j < restart_plan(prev).len()
            && restart_plan(prev)[i] == (Op::Reap { pid: p })
            && restart_plan(prev)[j] == Op::Spawn,
{
    match prev {
        Option::None => {
            let plan = restart_plan(prev);
            assert(plan.drop_first() =~= Seq::<Op>::empty());
            assert(spawn_count(plan.drop_first()) == 0);
        },
        Option::Some(p) => {
            let plan = restart_plan(prev);
            let s3 = plan.drop_first().drop_first().drop_first();
            assert(s3.drop_first() =~= Seq::<Op>::empty());
            assert(spawn_count(s3.drop_first()) == 0);
            assert(s3[0] == Op::Spawn && spawn_count(s3) == 1);
            assert(spawn_count(plan.drop_first().drop_first()) == 1);
            assert(spawn_count(plan.drop_first()) == 1);
            assert(plan[1] == (Op::Reap { pid: p }) && plan[3] == Op::Spawn);
        },
    }
}

/// Grace-period law: whenever a restart plan reaps a previous child,
/// a hold of the full grace period stands strictly between the reap
/// and the spawn, so the interval between the reap and the next spawn
/// is at least `GRACE_MS` milliseconds.
pub proof fn lemma_grace_between_reap_and_spawn(prev: Option<i32>)
    ensures
        forall|i: int, j: int|
            #![trigger restart_plan(prev)[i], restart_plan(prev)[j]]
            0 <= i < restart_plan(prev).len()
                && 0 <= j < restart_plan(prev).len()
                && (restart_plan(prev)[i] matches Op::Reap { .. })
                && restart_plan(prev)[j] == Op::Spawn
                ==> exists|k: int|
                    i < k < j && restart_plan(prev)[k] == (Op::Sleep { ms: GRACE_MS }),
{
    let plan = restart_plan(prev);
    assert forall|i: int, j: int|
        #![trigger plan[i], plan[j]]
        0 <= i < plan.len() && 0 <= j < plan.len()
            && (plan[i] matches Op::Reap { .. }) && plan[j] == Op::Spawn
            implies exists|k: int|
                i < k < j && plan[k] == (Op::Sleep { ms: GRACE_MS }) by {
        match prev {
            Option::None => {
                assert(plan[i] == Op::Spawn);
            },
            Option::Some(p) => {
                assert(i == 1 && j == 3);
                assert(plan[2] == (Op::Sleep { ms: GRACE_MS }));
            },
        }
    }
}

/// Group-kill addressing law: the one termination signal a restart
/// plan sends is addressed to the negation of the previous leader's
/// pid — a negative value, which the platform reads as the leader's
/// whole process group, so untouched descendants are reached too. With
/// no previous child, no signal is sent at all.
pub proof fn lemma_signal_addresses_group(prev: Option<i32>)
    requires
        prev matches Some(p) ==> 0 < p,
    ensures
        prev matches Some(p) ==> restart_plan(prev)[0]
            == (Op::SignalGroup { pgid: (-p) as i32 }) && (-p) as i32 == -(p as int),
        forall|i: int|
            0 <= i < restart_plan(prev).len()
                && (#[trigger] restart_plan(prev)[i] matches Op::SignalGroup { .. })
                ==> prev is Some && i == 0 && restart_plan(prev)[i]->SignalGroup_pgid < 0,
{
}

} // verus!
