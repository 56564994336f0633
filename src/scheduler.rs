use crate::id_table::IdTable;
use crate::process::{ProcessControlBlock, ProcessStatus, IDLE_PID};
use crate::queues::{
    boost_spec, contains_spec, first_match_at, lemma_first_match_weaken, lemma_pop_first_spec,
    outcome_of, outcomes, pop_first_spec, popped_at, push_back_spec, push_front_spec, without_spec,
    lemma_without_absent, MultiLevelQueue, distinct, lemma_boost_distinct, lemma_pop_distinct,
    lemma_push_distinct, lemma_without_distinct,
};

use vstd::prelude::*;

verus! {

/// The number of the yield call.
pub const SYS_YIELD: u32 = 0;

/// Timer ticks between two boosts.
pub const BOOST_QUANTUM: u32 = 50;

/// What caused a call of the scheduler.
#[derive(Clone, Copy, PartialEq, Eq, Structural, Debug)]
pub enum ScheduleSource {
    Svc { id: u32 },
    Timer,
    Reset,
    Io,
}

/// The running process, the level it was taken from, and how many ticks and
/// supervisor calls it has run for since. A retired one has left the process
/// table since it was dispatched: it is neither saved into nor queued again.
#[derive(Clone, Copy, PartialEq, Eq, Structural, Debug)]
pub struct Current {
    pub pid: i32,
    pub level: usize,
    pub run_count: u32,
    pub retired: bool,
}

/// A context switch for the dispatcher to carry out: save the frame into `prev`
/// (none at reset) and load the frame of `next`. The idle process is `IDLE_PID`.
#[derive(Clone, Copy, PartialEq, Eq, Structural, Debug)]
pub struct Switch {
    pub prev: Option<i32>,
    pub next: i32,
}

pub open spec fn is_ready(procs: Map<i32, ProcessControlBlock>, p: i32) -> bool {
    procs.contains_key(p) && procs[p]@.status == ProcessStatus::Ready
}

pub open spec fn ready_pred(procs: Map<i32, ProcessControlBlock>) -> spec_fn(i32) -> bool {
    |p: i32| is_ready(procs, p)
}

pub open spec fn is_executing(procs: Map<i32, ProcessControlBlock>, p: i32) -> bool {
    procs.contains_key(p) && procs[p]@.status == ProcessStatus::Executing
}

/// The level below `l`, or `l` at the bottom.
pub open spec fn demoted(l: usize, n: nat) -> usize {
    if l + 1 < n {
        (l + 1) as usize
    } else {
        l
    }
}

/// The level above `l`, or `l` at the top.
pub open spec fn promoted(l: usize) -> usize {
    if l > 0 {
        (l - 1) as usize
    } else {
        l
    }
}

/// Where a process that made supervisor call `id` goes back: down after a
/// yield, up when it used less than its quantum, else to the same level.
pub open spec fn svc_level(c: Current, quanta: Seq<u32>, id: u32) -> usize {
    if id == SYS_YIELD {
        demoted(c.level, quanta.len())
    } else if c.run_count < quanta[c.level as int] {
        promoted(c.level)
    } else {
        c.level
    }
}

/// The running process `c` is still there: not retired and in the table.
pub open spec fn live(c: Current, procs: Map<i32, ProcessControlBlock>) -> bool {
    !c.retired && procs.contains_key(c.pid)
}

/// The process to save the live frame into when switching away from `c`.
pub open spec fn prev_of(c: Current) -> Option<i32> {
    if c.retired {
        None
    } else {
        Some(c.pid)
    }
}

/// `c` put back at the end of `level`, unless it is no longer there.
pub open spec fn requeue_spec(
    levels: Seq<Seq<i32>>,
    procs: Map<i32, ProcessControlBlock>,
    c: Current,
    level: usize,
) -> Seq<Seq<i32>> {
    if live(c, procs) {
        push_back_spec(levels, level as int, c.pid)
    } else {
        levels
    }
}

/// The running record once process `pid` has left the table.
pub open spec fn retired_spec(cur: Option<Current>, pid: i32) -> Option<Current> {
    match cur {
        Some(c) => if c.pid == pid {
            Some(Current { retired: true, ..c })
        } else {
            cur
        },
        None => None,
    }
}

pub open spec fn counted(c: Current) -> Current {
    Current {
        run_count: if c.run_count == u32::MAX {
            u32::MAX
        } else {
            (c.run_count + 1) as u32
        },
        ..c
    }
}

pub open spec fn fresh(p: i32, l: int) -> Current {
    Current { pid: p, level: l as usize, run_count: 0, retired: false }
}

/// One timer tick of the boost counter: past `BOOST_QUANTUM` the levels are
/// boosted and the counter starts again.
pub open spec fn tick_spec(levels: Seq<Seq<i32>>, boost: u32) -> (Seq<Seq<i32>>, u32) {
    if boost + 1 > BOOST_QUANTUM {
        (boost_spec(levels), 0)
    } else {
        (levels, (boost + 1) as u32)
    }
}

/// The scheduling policy: from the levels, the running process and the boost
/// counter, and the process table, the new levels, running process and counter,
/// and the context switch to make, if any.
pub open spec fn schedule_spec(
    levels: Seq<Seq<i32>>,
    quanta: Seq<u32>,
    current: Option<Current>,
    boost: u32,
    src: ScheduleSource,
    procs: Map<i32, ProcessControlBlock>,
) -> (Seq<Seq<i32>>, Option<Current>, u32, Option<Switch>) {
    let ready = ready_pred(procs);
    match src {
        ScheduleSource::Reset => match pop_first_spec(levels, ready) {
            Some((p, l, lv)) => (lv, Some(fresh(p, l)), boost, Some(Switch { prev: None, next: p })),
            None => (levels, current, boost, None),
        },
        ScheduleSource::Timer => {
            let (lv1, b1) = tick_spec(levels, boost);
            match current {
                None => (lv1, None, b1, None),
                Some(c) => {
                    let c1 = counted(c);
                    if c1.run_count >= quanta[c.level as int] {
                        match pop_first_spec(lv1, ready) {
                            Some((p, l, lv2)) => (
                                requeue_spec(lv2, procs, c, demoted(c.level, quanta.len())),
                                Some(fresh(p, l)),
                                b1,
                                Some(Switch { prev: prev_of(c), next: p }),
                            ),
                            None => (lv1, Some(c1), b1, None),
                        }
                    } else {
                        (lv1, Some(c1), b1, None)
                    }
                },
            }
        },
        ScheduleSource::Svc { id } => match current {
            None => (levels, None, boost, None),
            Some(c) => {
                let c1 = counted(c);
                let back = svc_level(c1, quanta, id);
                match pop_first_spec(levels, ready) {
                    Some((p, l, lv)) => (
                        requeue_spec(lv, procs, c, back),
                        Some(fresh(p, l)),
                        boost,
                        Some(Switch { prev: prev_of(c), next: p }),
                    ),
                    None => if !c.retired && is_executing(procs, c.pid) {
                        (levels, Some(c1), boost, None)
                    } else {
                        (
                            requeue_spec(levels, procs, c, back),
                            None,
                            boost,
                            Some(Switch { prev: prev_of(c), next: IDLE_PID }),
                        )
                    },
                }
            },
        },
        ScheduleSource::Io => match current {
            Some(_) => (levels, current, boost, None),
            None => match pop_first_spec(levels, ready) {
                Some((p, l, lv)) => (
                    lv,
                    Some(fresh(p, l)),
                    boost,
                    Some(Switch { prev: Some(IDLE_PID), next: p }),
                ),
                None => (levels, None, boost, None),
            },
        },
    }
}

/// A first match exists for a plain predicate that some queued process meets.
pub proof fn lemma_first_match_exists(levels: Seq<Seq<i32>>, pred: spec_fn(i32) -> bool, l: int, i: int)
    requires
        0 <= l < levels.len(),
        0 <= i < levels[l].len(),
        pred(levels[l][i]),
    ensures
        pop_first_spec(levels, pred) is Some,
    decreases l, i,
{
    let e = outcome_of(pred);
    if exists|l2: int, j: int| 0 <= l2 < l && 0 <= j < levels[l2].len() && pred(levels[l2][j]) {
        let (l2, j) = choose|l2: int, j: int|
            0 <= l2 < l && 0 <= j < levels[l2].len() && pred(levels[l2][j]);
        lemma_first_match_exists(levels, pred, l2, j);
    } else if exists|j: int| 0 <= j < i && pred(levels[l][j]) {
        let j = choose|j: int| 0 <= j < i && pred(levels[l][j]);
        lemma_first_match_exists(levels, pred, l, j);
    } else {
        assert forall|l2: int, j: int| 0 <= l2 < l && 0 <= j < levels[l2].len() implies #[trigger] e(
            levels[l2][j],
            false,
        ) by {}
        assert forall|j: int| 0 <= j < i implies #[trigger] e(levels[l][j], false) by {}
        assert(first_match_at(levels, e, l, i));
    }
}

/// When exactly one queued process meets the predicate, it is the one taken.
pub proof fn lemma_only_ready(levels: Seq<Seq<i32>>, pred: spec_fn(i32) -> bool, p: i32)
    requires
        contains_spec(levels, p),
        pred(p),
        forall|q: i32| contains_spec(levels, q) && pred(q) ==> q == p,
    ensures
        pop_first_spec(levels, pred) matches Some((x, l, rest)) && x == p,
{
    let (l, i) = choose|l: int, i: int|
        0 <= l < levels.len() && 0 <= i < levels[l].len() && levels[l][i] == p;
    lemma_first_match_exists(levels, pred, l, i);
    let (l2, i2) = choose|l2: int, i2: int| first_match_at(levels, outcome_of(pred), l2, i2);
    assert(outcome_of(pred)(levels[l2][i2], true));
    assert(contains_spec(levels, levels[l2][i2]));
}

/// `k` timer events in a row, with no change to the process table between them.
pub open spec fn timers(
    levels: Seq<Seq<i32>>,
    quanta: Seq<u32>,
    current: Option<Current>,
    boost: u32,
    procs: Map<i32, ProcessControlBlock>,
    k: nat,
) -> (Seq<Seq<i32>>, Option<Current>, u32, Option<Switch>)
    decreases k,
{
    if k == 0 {
        (levels, current, boost, None)
    } else {
        let (lv, c, b, _) = timers(levels, quanta, current, boost, procs, (k - 1) as nat);
        schedule_spec(lv, quanta, c, b, ScheduleSource::Timer, procs)
    }
}

/// A process that starts running on the top level keeps running through the
/// first `q - 1` timer events, where `q` is the top level's quantum, and at the
/// `q`-th, if some other process is ready, it hands over to that process and
/// goes to the back of the second level.
pub proof fn lemma_quantum_demotion(
    levels: Seq<Seq<i32>>,
    quanta: Seq<u32>,
    pid: i32,
    boost: u32,
    procs: Map<i32, ProcessControlBlock>,
    k: nat,
)
    requires
        quanta.len() >= 2,
        levels.len() == quanta.len(),
        boost <= BOOST_QUANTUM,
        is_executing(procs, pid),
        1 <= k <= quanta[0],
    ensures
        ({
            let (lv, c, b, sw) = timers(levels, quanta, Some(fresh(pid, 0)), boost, procs, k);
            let (lv0, c0, b0, sw0) = timers(
                levels,
                quanta,
                Some(fresh(pid, 0)),
                boost,
                procs,
                (k - 1) as nat,
            );
            let lv1 = tick_spec(lv0, b0).0;
            &&& k < quanta[0] ==> sw is None && c == Some(Current { pid, level: 0, run_count: k as u32, retired: false })
            &&& k == quanta[0] ==> match pop_first_spec(lv1, ready_pred(procs)) {
                Some((p, l, lv2)) => {
                    &&& sw == Some(Switch { prev: Some(pid), next: p })
                    &&& c == Some(fresh(p, l))
                    &&& lv == push_back_spec(lv2, 1, pid)
                    &&& lv[1].last() == pid
                },
                None => sw is None && c == Some(Current { pid, level: 0, run_count: k as u32, retired: false }),
            }
        }),
    decreases k,
{
    lemma_timers_running(levels, quanta, pid, boost, procs, (k - 1) as nat);
    let (lv0, c0, b0, sw0) = timers(levels, quanta, Some(fresh(pid, 0)), boost, procs, (k - 1) as nat);
    let lv1 = tick_spec(lv0, b0).0;
    match pop_first_spec(lv1, ready_pred(procs)) {
        Some((p, l, lv2)) => {
            if k == quanta[0] {
                let lv = push_back_spec(lv2, 1, pid);
                assert(lv[1] == lv2[1].push(pid));
            }
        },
        None => {},
    }
}

/// Before its quantum is used up, timer events leave a process running on the
/// top level with its run count equal to the number of events.
proof fn lemma_timers_running(
    levels: Seq<Seq<i32>>,
    quanta: Seq<u32>,
    pid: i32,
    boost: u32,
    procs: Map<i32, ProcessControlBlock>,
    k: nat,
)
    requires
        quanta.len() >= 2,
        levels.len() == quanta.len(),
        boost <= BOOST_QUANTUM,
        k < quanta[0],
    ensures
        ({
            let (lv, c, b, sw) = timers(levels, quanta, Some(fresh(pid, 0)), boost, procs, k);
            &&& c == Some(Current { pid, level: 0, run_count: k as u32, retired: false })
            &&& sw is None
            &&& lv.len() == levels.len()
            &&& b <= BOOST_QUANTUM
        }),
    decreases k,
{
    if k > 0 {
        lemma_timers_running(levels, quanta, pid, boost, procs, (k - 1) as nat);
    }
}

/// After a supervisor call, while another process is ready: a process that
/// yielded goes to the back of the level below (or stays at the bottom); one
/// that made any other call within its quantum goes to the back of the level
/// above (or stays at the top).
pub proof fn lemma_svc_requeue(
    levels: Seq<Seq<i32>>,
    quanta: Seq<u32>,
    c: Current,
    boost: u32,
    id: u32,
    procs: Map<i32, ProcessControlBlock>,
)
    requires
        levels.len() == quanta.len(),
        c.level < levels.len(),
        live(c, procs),
        pop_first_spec(levels, ready_pred(procs)) is Some,
        id == SYS_YIELD || counted(c).run_count < quanta[c.level as int],
    ensures
        ({
            let (p, l, rest) = pop_first_spec(levels, ready_pred(procs)).unwrap();
            let (lv, cur, b, sw) = schedule_spec(
                levels,
                quanta,
                Some(c),
                boost,
                ScheduleSource::Svc { id },
                procs,
            );
            &&& sw == Some(Switch { prev: if c.retired {
                                        None
                                    } else {
                                        Some(c.pid)
                                    }, next: p })
            &&& id == SYS_YIELD ==> lv == push_back_spec(
                rest,
                demoted(c.level, levels.len()) as int,
                c.pid,
            )
            &&& id != SYS_YIELD ==> lv == push_back_spec(rest, promoted(c.level) as int, c.pid)
        }),
{
}

/// With no process ready, a supervisor call from a running process that is now
/// blocked hands the processor to the idle process and keeps the caller queued;
/// once the caller is ready again, an I/O event hands the processor from the
/// idle process to it, when no other queued process is ready.
pub proof fn lemma_idle_fallback(
    levels: Seq<Seq<i32>>,
    quanta: Seq<u32>,
    c: Current,
    boost: u32,
    id: u32,
    procs: Map<i32, ProcessControlBlock>,
    later: Map<i32, ProcessControlBlock>,
)
    requires
        levels.len() == quanta.len(),
        c.level < levels.len(),
        live(c, procs),
        procs[c.pid]@.status == ProcessStatus::Blocked,
        pop_first_spec(levels, ready_pred(procs)) is None,
    ensures
        ({
            let (lv, cur, b, sw) = schedule_spec(
                levels,
                quanta,
                Some(c),
                boost,
                ScheduleSource::Svc { id },
                procs,
            );
            &&& cur is None
            &&& sw == Some(Switch { prev: if c.retired {
                                        None
                                    } else {
                                        Some(c.pid)
                                    }, next: IDLE_PID })
            &&& contains_spec(lv, c.pid)
            &&& is_ready(later, c.pid) && (forall|q: i32|
                contains_spec(lv, q) && is_ready(later, q) ==> q == c.pid) ==> schedule_spec(
                lv,
                quanta,
                None,
                b,
                ScheduleSource::Io,
                later,
            ).3 == Some(Switch { prev: Some(IDLE_PID), next: c.pid })
        }),
{
    let (lv, cur, b, sw) = schedule_spec(
        levels,
        quanta,
        Some(c),
        boost,
        ScheduleSource::Svc { id },
        procs,
    );
    let back = svc_level(counted(c), quanta, id);
    assert(lv == push_back_spec(levels, back as int, c.pid));
    let i = lv[back as int].len() - 1;
    assert(lv[back as int][i] == c.pid);
    assert(contains_spec(lv, c.pid));
    if is_ready(later, c.pid) && (forall|q: i32| contains_spec(lv, q) && is_ready(later, q) ==> q == c.pid) {
        lemma_first_match_exists(lv, ready_pred(later), back as int, i);
        let (p, l, rest) = pop_first_spec(lv, ready_pred(later)).unwrap();
        let (l2, i2) = choose|l2: int, i2: int| first_match_at(lv, outcome_of(ready_pred(later)), l2, i2);
        assert(contains_spec(lv, lv[l2][i2]));
    }
}

/// Multi-level feedback queue scheduler with a periodic boost. It holds process
/// identifiers; their statuses are read from the process table at each call.
pub struct MLFQScheduler {
    queues: MultiLevelQueue,
    current: Option<Current>,
    boost_tracker: u32,
}

impl MLFQScheduler {
    pub closed spec fn levels(&self) -> Seq<Seq<i32>> {
        self.queues.levels()
    }

    pub closed spec fn quanta(&self) -> Seq<u32> {
        self.queues.quanta()
    }

    pub closed spec fn current_spec(&self) -> Option<Current> {
        self.current
    }

    pub closed spec fn boost_counter(&self) -> u32 {
        self.boost_tracker
    }

    /// Each process is queued at most once, and the running process, unless
    /// retired, is not queued.
    pub open spec fn wf(&self) -> bool {
        &&& self.levels().len() > 0
        &&& self.quanta().len() == self.levels().len()
        &&& self.boost_counter() <= BOOST_QUANTUM
        &&& distinct(self.levels())
        &&& match self.current_spec() {
            Some(c) => c.level < self.levels().len() && (!c.retired ==> !contains_spec(
                self.levels(),
                c.pid,
            )),
            None => true,
        }
    }

    /// An idle scheduler over one empty level per quantum.
    pub fn new(quanta: Vec<u32>) -> (s: Self)
        requires
            quanta@.len() > 0,
        ensures
            s.wf(),
            s.quanta() == quanta@,
            s.levels() == Seq::new(quanta@.len(), |l: int| Seq::<i32>::empty()),
            s.current_spec() is None,
            s.boost_counter() == 0,
    {
        let s = MLFQScheduler { queues: MultiLevelQueue::new(quanta), current: None, boost_tracker: 0 };
        assert(distinct(s.levels()));
        s
    }

    /// The queues' levels, front first.
    pub fn queues(&self) -> (q: &MultiLevelQueue)
        ensures
            q.levels() == self.levels(),
            q.quanta() == self.quanta(),
    {
        &self.queues
    }

    /// Adds a process at the front of the top level; it must not be queued yet.
    pub fn insert_process(&mut self, pid: i32)
        requires
            old(self).wf(),
            !contains_spec(old(self).levels(), pid),
            match old(self).current_spec() {
                Some(c) => !c.retired ==> c.pid != pid,
                None => true,
            },
        ensures
            final(self).wf(),
            final(self).levels() == push_front_spec(old(self).levels(), pid),
            final(self).quanta() == old(self).quanta(),
            final(self).current_spec() == old(self).current_spec(),
            final(self).boost_counter() == old(self).boost_counter(),
    {
        self.queues.push_front_top(pid);
        proof {
            lemma_push_distinct(old(self).levels(), 0, pid);
        }
    }

    /// Whether some level holds `pid`.
    pub fn contains(&self, pid: i32) -> (r: bool)
        ensures
            r == contains_spec(self.levels(), pid),
    {
        self.queues.contains(pid)
    }

    /// Takes `pid` out of the levels; a running process is left to the next call
    /// of `schedule`.
    pub fn remove_process(&mut self, pid: i32)
        requires
            old(self).wf(),
        ensures
            final(self).wf(),
            final(self).quanta() == old(self).quanta(),
            final(self).current_spec() == old(self).current_spec(),
            final(self).boost_counter() == old(self).boost_counter(),
            final(self).levels() == without_spec(old(self).levels(), pid),
            !contains_spec(final(self).levels(), pid),
    {
        self.queues.remove_all(pid);
        proof {
            lemma_without_absent(old(self).levels(), pid);
            lemma_without_distinct(old(self).levels(), pid);
        }
    }

    /// The running process, or `None` while idling or when it has retired.
    pub fn current_process(&self) -> (r: Option<i32>)
        ensures
            r == (match self.current_spec() {
                Some(c) => if c.retired {
                    None
                } else {
                    Some(c.pid)
                },
                None => None::<i32>,
            }),
    {
        match self.current {
            Some(c) => if c.retired {
                None
            } else {
                Some(c.pid)
            },
            None => None,
        }
    }

    /// Marks the running process as retired when it is `pid`, which has left the
    /// process table.
    pub fn retire(&mut self, pid: i32)
        requires
            old(self).wf(),
        ensures
            final(self).wf(),
            final(self).levels() == old(self).levels(),
            final(self).quanta() == old(self).quanta(),
            final(self).boost_counter() == old(self).boost_counter(),
            final(self).current_spec() == retired_spec(old(self).current_spec(), pid),
    {
        match self.current {
            Some(c) => if c.pid == pid {
                self.current = Some(Current { retired: true, ..c });
            },
            None => {},
        }
    }

    pub fn current(&self) -> (r: Option<Current>)
        ensures
            r == self.current_spec(),
    {
        self.current
    }

    fn pop_ready(&mut self, procs: &IdTable<ProcessControlBlock>) -> (r: Option<(i32, usize)>)
        requires
            old(self).wf(),
        ensures
            final(self).wf(),
            final(self).quanta() == old(self).quanta(),
            final(self).current_spec() == old(self).current_spec(),
            final(self).boost_counter() == old(self).boost_counter(),
            final(self).levels().len() == old(self).levels().len(),
            match pop_first_spec(old(self).levels(), ready_pred(procs@)) {
                Some((p, l, lv)) => r == Some((p, l as usize)) && final(self).levels() == lv && l
                    < old(self).levels().len(),
                None => r is None && final(self).levels() == old(self).levels(),
            },
            forall|x: i32|
                contains_spec(final(self).levels(), x) ==> contains_spec(old(self).levels(), x),
            r matches Some((p, l)) ==> contains_spec(old(self).levels(), p),
    {
        let ghost lv = self.levels();
        let ready = |p: i32| -> (b: bool)
            ensures
                b == is_ready(procs@, p),
            {
                match procs.get(p) {
                    Some(pcb) => pcb.status() == ProcessStatus::Ready,
                    None => false,
                }
            };
        let r = self.queues.pop_process(ready);
        proof {
            lemma_pop_distinct(lv, ready_pred(procs@));
            let a = outcomes(ready);
            let e = outcome_of(ready_pred(procs@));
            assert forall|q: i32, b: bool| #[trigger] a(q, b) implies e(q, b) by {}
            match r {
                Some((x, l)) => {
                    let i = choose|i: int| popped_at(lv, self.levels(), a, x, l as int, i);
                    lemma_first_match_weaken(lv, a, e, l as int, i);
                    lemma_pop_first_spec(lv, ready_pred(procs@), l as int, i);
                },
                None => {
                    if exists|l: int, i: int| first_match_at(lv, e, l, i) {
                        let (l, i) = choose|l: int, i: int| first_match_at(lv, e, l, i);
                        assert(a(lv[l][i], false));
                    }
                },
            }
        }
        r
    }

    fn tick(&mut self)
        requires
            old(self).wf(),
        ensures
            final(self).wf(),
            final(self).quanta() == old(self).quanta(),
            final(self).current_spec() == old(self).current_spec(),
            (final(self).levels(), final(self).boost_counter()) == tick_spec(
                old(self).levels(),
                old(self).boost_counter(),
            ),
            forall|x: i32|
                contains_spec(final(self).levels(), x) == contains_spec(old(self).levels(), x),
    {
        self.boost_tracker = self.boost_tracker + 1;
        if self.boost_tracker > BOOST_QUANTUM {
            self.queues.boost();
            self.boost_tracker = 0;
            proof {
                lemma_boost_distinct(old(self).levels());
            }
        }
    }

    fn requeue(&mut self, procs: &IdTable<ProcessControlBlock>, c: Current, level: usize)
        requires
            old(self).wf(),
            level < old(self).levels().len(),
            !c.retired ==> !contains_spec(old(self).levels(), c.pid),
            match old(self).current_spec() {
                Some(k) => !k.retired && !c.retired ==> k.pid != c.pid,
                None => true,
            },
        ensures
            final(self).wf(),
            final(self).quanta() == old(self).quanta(),
            final(self).current_spec() == old(self).current_spec(),
            final(self).boost_counter() == old(self).boost_counter(),
            final(self).levels() == requeue_spec(old(self).levels(), procs@, c, level),
            forall|x: i32|
                contains_spec(final(self).levels(), x) ==> contains_spec(old(self).levels(), x) || (
                live(c, procs@) && x == c.pid),
    {
        if !c.retired && procs.contains_key(c.pid) {
            self.queues.push_back(level, c.pid);
            proof {
                lemma_push_distinct(old(self).levels(), level as int, c.pid);
            }
        }
    }

    /// Runs the policy for one event and returns the context switch it decides
    /// on, if any.
    pub fn schedule(&mut self, src: ScheduleSource, procs: &IdTable<ProcessControlBlock>) -> (r:
        Option<Switch>)
        requires
            old(self).wf(),
        ensures
            final(self).wf(),
            final(self).quanta() == old(self).quanta(),
            (final(self).levels(), final(self).current_spec(), final(self).boost_counter(), r)
                == schedule_spec(
                old(self).levels(),
                old(self).quanta(),
                old(self).current_spec(),
                old(self).boost_counter(),
                src,
                procs@,
            ),
            forall|x: i32|
                contains_spec(final(self).levels(), x) ==> contains_spec(old(self).levels(), x) || (
                old(self).current_spec() matches Some(c) && live(c, procs@) && x == c.pid),
            final(self).current_spec() matches Some(k) ==> contains_spec(old(self).levels(), k.pid)
                || (old(self).current_spec() matches Some(c) && k.pid == c.pid),
    {
        match src {
            ScheduleSource::Reset => {
                match self.pop_ready(procs) {
                    Some((p, l)) => {
                        self.current = Some(Current { pid: p, level: l, run_count: 0, retired: false });
                        Some(Switch { prev: None, next: p })
                    },
                    None => None,
                }
            },
            ScheduleSource::Timer => {
                self.tick();
                match self.current {
                    None => None,
                    Some(c) => {
                        let c1 = Current { run_count: c.run_count.saturating_add(1), ..c };
                        if c1.run_count >= self.queues.quantum(c.level) {
                            match self.pop_ready(procs) {
                                Some((p, l)) => {
                                    let below = match self.queues.below(c.level) {
                                        Some(b) => b,
                                        None => c.level,
                                    };
                                    self.current = Some(Current { pid: p, level: l, run_count: 0, retired: false });
                                    self.requeue(procs, c, below);
                                    Some(Switch { prev: if c.retired {
                                        None
                                    } else {
                                        Some(c.pid)
                                    }, next: p })
                                },
                                None => {
                                    self.current = Some(c1);
                                    None
                                },
                            }
                        } else {
                            self.current = Some(c1);
                            None
                        }
                    },
                }
            },
            ScheduleSource::Svc { id } => {
                match self.current {
                    None => None,
                    Some(c) => {
                        let c1 = Current { run_count: c.run_count.saturating_add(1), ..c };
                        let back = if id == SYS_YIELD {
                            match self.queues.below(c.level) {
                                Some(b) => b,
                                None => c.level,
                            }
                        } else if c1.run_count < self.queues.quantum(c.level) {
                            match self.queues.above(c.level) {
                                Some(a) => a,
                                None => c.level,
                            }
                        } else {
                            c.level
                        };
                        let executing = !c.retired && match procs.get(c.pid) {
                            Some(pcb) => pcb.status() == ProcessStatus::Executing,
                            None => false,
                        };
                        match self.pop_ready(procs) {
                            Some((p, l)) => {
                                self.current = Some(Current { pid: p, level: l, run_count: 0, retired: false });
                                self.requeue(procs, c, back);
                                Some(Switch { prev: if c.retired {
                                        None
                                    } else {
                                        Some(c.pid)
                                    }, next: p })
                            },
                            None => {
                                if executing {
                                    self.current = Some(c1);
                                    None
                                } else {
                                    self.current = None;
                                    self.requeue(procs, c, back);
                                    Some(Switch { prev: if c.retired {
                                        None
                                    } else {
                                        Some(c.pid)
                                    }, next: IDLE_PID })
                                }
                            },
                        }
                    },
                }
            },
            ScheduleSource::Io => {
                match self.current {
                    Some(_) => None,
                    None => match self.pop_ready(procs) {
                        Some((p, l)) => {
                            self.current = Some(Current { pid: p, level: l, run_count: 0, retired: false });
                            Some(Switch { prev: Some(IDLE_PID), next: p })
                        },
                        None => None,
                    },
                }
            },
        }
    }
}

impl Default for MLFQScheduler {
    /// Four levels with quanta 2, 4, 8 and 16 ticks, and no running process.
    fn default() -> (s: Self)
        ensures
            s.wf(),
            s.quanta() == seq![2u32, 4, 8, 16],
            s.levels() == Seq::new(4, |l: int| Seq::<i32>::empty()),
            s.current_spec() is None,
            s.boost_counter() == 0,
    {
        let s = MLFQScheduler { queues: MultiLevelQueue::default(), current: None, boost_tracker: 0 };
        assert(distinct(s.levels()));
        s
    }
}

} // verus!
