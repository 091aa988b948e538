use vstd::prelude::*;
use crate::sim::SimProcess;

verus! {

/// Length of the time slice handed out by the round-robin policies.
pub const QUANTUM: u32 = 10;

/// The five dispatch policies of the engine.
#[derive(Clone, Copy, Debug, PartialEq, Eq, Structural)]
pub enum Policy {
    Fcfs,
    Sjf,
    Priority,
    RoundRobin,
    PriorityRoundRobin,
}

/// Sum of the remaining bursts of a task sequence.
pub open spec fn total_burst(s: Seq<SimProcess>) -> nat
    decreases s.len(),
{
    if s.len() == 0 {
        0
    } else {
        total_burst(s.drop_last()) + s.last().burst as nat
    }
}

/// The task after it has run to completion, having waited `w` in all.
pub open spec fn completed(p: SimProcess, w: nat) -> SimProcess {
    SimProcess { name: p.name, priority: p.priority, burst: 0, wait: w as u32 }
}

/// Whether a selection policy prefers `a` strictly over `b`.
pub open spec fn ahead(policy: Policy, a: SimProcess, b: SimProcess) -> bool {
    match policy {
        Policy::Sjf => a.burst < b.burst,
        Policy::Priority => a.priority > b.priority,
        _ => false,
    }
}

/// Index of the task that a selection policy dispatches next: the first one
/// that no task is strictly ahead of.
pub open spec fn pick(policy: Policy, s: Seq<SimProcess>) -> int
    decreases s.len(),
{
    if s.len() <= 1 {
        0
    } else {
        let j = pick(policy, s.drop_last());
        if ahead(policy, s.last(), s[j]) {
            s.len() - 1
        } else {
            j
        }
    }
}

/// Non-preemptive run from clock `clock`: the tasks in the order they are
/// dispatched, each run to completion, and the clock at the end.
pub open spec fn select_from(policy: Policy, s: Seq<SimProcess>, clock: nat) -> (Seq<SimProcess>, nat)
    decreases s.len(),
    via select_from_decreases
{
    if s.len() == 0 {
        (s, clock)
    } else {
        let i = pick(policy, s);
        let rest = select_from(policy, s.remove(i), clock + s[i].burst as nat);
        (seq![completed(s[i], clock)] + rest.0, rest.1)
    }
}

#[via_fn]
proof fn select_from_decreases(policy: Policy, s: Seq<SimProcess>, clock: nat) {
    if s.len() > 0 {
        lemma_pick_in_range(policy, s);
    }
}

pub(crate) proof fn lemma_pick_in_range(policy: Policy, s: Seq<SimProcess>)
    requires
        s.len() > 0,
    ensures
        0 <= pick(policy, s) < s.len(),
    decreases s.len(),
{
    if s.len() > 1 {
        lemma_pick_in_range(policy, s.drop_last());
    }
}

pub(crate) proof fn lemma_total_push(s: Seq<SimProcess>, p: SimProcess)
    ensures
        total_burst(s.push(p)) == total_burst(s) + p.burst,
{
    assert(s.push(p).drop_last() =~= s);
}

pub(crate) proof fn lemma_total_remove(s: Seq<SimProcess>, i: int)
    requires
        0 <= i < s.len(),
    ensures
        total_burst(s.remove(i)) + s[i].burst == total_burst(s),
    decreases s.len(),
{
    if i < s.len() - 1 {
        let t = s.drop_last();
        lemma_total_remove(t, i);
        assert(s.remove(i) =~= t.remove(i).push(s.last()));
        lemma_total_push(t.remove(i), s.last());
    } else {
        assert(s.remove(i) =~= s.drop_last());
    }
}

/// Index of the task that `policy` dispatches next among `v`.
fn pick_index(policy: Policy, v: &Vec<SimProcess>) -> (r: usize)
    requires
        v.len() > 0,
    ensures
        r == pick(policy, v@),
{
    let mut best: usize = 0;
    let mut k: usize = 1;
    while k < v.len()
        invariant
            1 <= k <= v.len(),
            best == pick(policy, v@.take(k as int)),
            best < k,
        decreases v.len() - k,
    {
        assert(v@.take(k as int + 1).drop_last() =~= v@.take(k as int));
        let better = match policy {
            Policy::Sjf => v[k].burst < v[best].burst,
            Policy::Priority => v[k].priority > v[best].priority,
            _ => false,
        };
        if better {
            best = k;
        }
        k = k + 1;
    }
    assert(v@.take(v.len() as int) =~= v@);
    best
}

/// Runs a selection policy on `tasks`, starting from `clock`.
fn run_selection(policy: Policy, tasks: Vec<SimProcess>, clock: u32) -> (r: (Vec<SimProcess>, u32))
    requires
        clock + total_burst(tasks@) <= u32::MAX,
    ensures
        r.0@ == select_from(policy, tasks@, clock as nat).0,
        r.1 == select_from(policy, tasks@, clock as nat).1,
{
    let mut pending = tasks;
    let mut done: Vec<SimProcess> = Vec::new();
    let mut now = clock;
    while pending.len() > 0
        invariant
            now + total_burst(pending@) <= u32::MAX,
            done@ + select_from(policy, pending@, now as nat).0 == select_from(policy, tasks@, clock as nat).0,
            select_from(policy, pending@, now as nat).1 == select_from(policy, tasks@, clock as nat).1,
        decreases pending.len(),
    {
        let i = pick_index(policy, &pending);
        proof {
            lemma_pick_in_range(policy, pending@);
            lemma_total_remove(pending@, i as int);
        }
        let ghost before = pending@;
        let mut p = pending.remove(i);
        let start = now;
        now = now + p.burst;
        p.burst = 0;
        p.wait = start;
        assert(p == completed(before[i as int], start as nat));
        let ghost old_done = done@;
        done.push(p);
        assert(done@ + select_from(policy, pending@, now as nat).0 =~= old_done + select_from(policy, before, start as nat).0);
    }
    (done, now)
}


/// The time a task runs when it is dispatched by a round-robin policy.
pub open spec fn slice(p: SimProcess) -> nat {
    if p.burst < QUANTUM { p.burst as nat } else { QUANTUM as nat }
}

/// Every task of `s` that still has work to do waits `run` more.
pub open spec fn charge(s: Seq<SimProcess>, run: nat) -> Seq<SimProcess> {
    s.map_values(
        |p: SimProcess|
            if p.burst > 0 {
                SimProcess { name: p.name, priority: p.priority, burst: p.burst, wait: (p.wait + run) as u32 }
            } else {
                p
            },
    )
}

/// The head task after one round-robin dispatch.
pub open spec fn after_slice(p: SimProcess) -> SimProcess {
    SimProcess { name: p.name, priority: p.priority, burst: (p.burst - slice(p)) as u32, wait: p.wait }
}

/// Round-robin run of a ready queue from clock `clock`: the tasks in the
/// order they complete, and the clock at the end.
pub open spec fn rotate_from(queue: Seq<SimProcess>, clock: nat) -> (Seq<SimProcess>, nat)
    decreases total_burst(queue), queue.len(),
    via rotate_from_decreases
{
    if queue.len() == 0 {
        (queue, clock)
    } else {
        let head = after_slice(queue[0]);
        let rest = charge(queue.drop_first(), slice(queue[0]));
        if head.burst == 0 {
            let r = rotate_from(rest, clock + slice(queue[0]));
            (seq![head] + r.0, r.1)
        } else {
            rotate_from(rest.push(head), clock + slice(queue[0]))
        }
    }
}

#[via_fn]
proof fn rotate_from_decreases(queue: Seq<SimProcess>, clock: nat) {
    if queue.len() > 0 {
        let head = after_slice(queue[0]);
        let rest = charge(queue.drop_first(), slice(queue[0]));
        lemma_total_charge(queue.drop_first(), slice(queue[0]));
        lemma_total_remove(queue, 0);
        assert(queue.remove(0) =~= queue.drop_first());
        lemma_total_push(rest, head);
    }
}

pub(crate) proof fn lemma_total_charge(s: Seq<SimProcess>, run: nat)
    ensures
        total_burst(charge(s, run)) == total_burst(s),
    decreases s.len(),
{
    if s.len() > 0 {
        lemma_total_charge(s.drop_last(), run);
        assert(charge(s, run).drop_last() =~= charge(s.drop_last(), run));
    }
}

/// Adds `run` to the wait of every task of `v` that still has work to do.
fn charge_all(v: &mut Vec<SimProcess>, run: u32)
    requires
        forall|j: int| 0 <= j < old(v).len() ==> old(v)[j].wait + run <= u32::MAX,
    ensures
        final(v)@ == charge(old(v)@, run as nat),
{
    let mut j: usize = 0;
    while j < v.len()
        invariant
            j <= v.len() == old(v).len(),
            forall|k: int| 0 <= k < old(v).len() ==> old(v)[k].wait + run <= u32::MAX,
            forall|k: int| 0 <= k < j ==> v@[k] == charge(old(v)@, run as nat)[k],
            forall|k: int| j <= k < v.len() ==> v@[k] == old(v)@[k],
        decreases v.len() - j,
    {
        if v[j].burst > 0 {
            v[j].wait = v[j].wait + run;
        }
        j = j + 1;
    }
    assert(v@ =~= charge(old(v)@, run as nat));
}


/// Whether every task's wait can grow by the whole remaining work of `s`
/// without leaving `u32`.
pub open spec fn waits_fit(s: Seq<SimProcess>) -> bool {
    waits_within(s, total_burst(s))
}

/// Whether every task's wait can grow by `bound` without leaving `u32`.
pub open spec fn waits_within(s: Seq<SimProcess>, bound: nat) -> bool {
    forall|j: int| 0 <= j < s.len() ==> s[j].wait + bound <= u32::MAX
}

/// Runs the round-robin policy on the ready queue `queue`, starting from `clock`.
fn run_rotation(queue: Vec<SimProcess>, clock: u32) -> (r: (Vec<SimProcess>, u32))
    requires
        clock + total_burst(queue@) <= u32::MAX,
        waits_fit(queue@),
    ensures
        r.0@ == rotate_from(queue@, clock as nat).0,
        r.1 == rotate_from(queue@, clock as nat).1,
{
    let mut q = queue;
    let mut done: Vec<SimProcess> = Vec::new();
    let mut now = clock;
    while q.len() > 0
        invariant
            now + total_burst(q@) == clock + total_burst(queue@),
            clock + total_burst(queue@) <= u32::MAX,
            waits_fit(q@),
            done@ + rotate_from(q@, now as nat).0 == rotate_from(queue@, clock as nat).0,
            rotate_from(q@, now as nat).1 == rotate_from(queue@, clock as nat).1,
        decreases total_burst(q@), q.len(),
    {
        let ghost before = q@;
        let mut head = q.remove(0);
        proof {
            lemma_total_remove(before, 0);
            assert(before.remove(0) =~= before.drop_first());
            lemma_total_charge(before.drop_first(), slice(before[0]));
        }
        let run: u32 = if head.burst < QUANTUM { head.burst } else { QUANTUM };
        head.burst = head.burst - run;
        assert(head == after_slice(before[0]));
        charge_all(&mut q, run);
        now = now + run;
        let ghost old_done = done@;
        if head.burst == 0 {
            done.push(head);
            assert(done@ + rotate_from(q@, now as nat).0 =~= old_done + rotate_from(before, (now - run) as nat).0);
        } else {
            let ghost rest = q@;
            q.push(head);
            proof {
                lemma_total_push(rest, head);
            }
        }
    }
    (done, now)
}


/// The tasks of `s` whose priority is `level`, in input order.
pub open spec fn at_level(s: Seq<SimProcess>, level: int) -> Seq<SimProcess> {
    s.filter(|p: SimProcess| p.priority as int == level)
}

/// The tasks of `s` whose priority is not `level`, in input order.
pub open spec fn off_level(s: Seq<SimProcess>, level: int) -> Seq<SimProcess> {
    s.filter(|p: SimProcess| p.priority as int != level)
}

/// The tasks of `s` whose priority is under `level`, in input order.
pub open spec fn below(s: Seq<SimProcess>, level: int) -> Seq<SimProcess> {
    s.filter(|p: SimProcess| (p.priority as int) < level)
}

/// Priority classes `level`, `level - 1`, ..., 0 of `s`, one after the other,
/// each run round-robin once the classes above it are done; a class joins
/// the clock when it becomes active, so its tasks have waited all the time
/// before. Gives the tasks in completion order and the clock at the end.
pub open spec fn classes_from(s: Seq<SimProcess>, level: int, clock: nat) -> (Seq<SimProcess>, nat)
    decreases level + 1,
{
    if level < 0 {
        (Seq::empty(), clock)
    } else {
        let r = rotate_from(charge(at_level(s, level), clock), clock);
        let rest = classes_from(s, level - 1, r.1);
        (r.0 + rest.0, rest.1)
    }
}

pub(crate) proof fn lemma_filter_filter(
    s: Seq<SimProcess>,
    f: spec_fn(SimProcess) -> bool,
    g: spec_fn(SimProcess) -> bool,
    h: spec_fn(SimProcess) -> bool,
)
    requires
        forall|x: SimProcess| #[trigger] h(x) == (f(x) && g(x)),
    ensures
        s.filter(f).filter(g) == s.filter(h),
    decreases s.len(),
{
    broadcast use Seq::lemma_filter_push;
    if s.len() > 0 {
        let t = s.drop_last();
        lemma_filter_filter(t, f, g, h);
        assert(s =~= t.push(s.last()));
        assert(t.filter(f).push(s.last()).filter(g) == if g(s.last()) {
            t.filter(f).filter(g).push(s.last())
        } else {
            t.filter(f).filter(g)
        });
    }
}

pub(crate) proof fn lemma_total_split(s: Seq<SimProcess>, level: int)
    ensures
        total_burst(at_level(s, level)) + total_burst(off_level(s, level)) == total_burst(s),
        at_level(s, level).len() + off_level(s, level).len() == s.len(),
    decreases s.len(),
{
    broadcast use Seq::lemma_filter_push;
    if s.len() > 0 {
        let t = s.drop_last();
        lemma_total_split(t, level);
        assert(s =~= t.push(s.last()));
        lemma_total_push(at_level(t, level), s.last());
        lemma_total_push(off_level(t, level), s.last());
    }
}

/// Splits `v` into the tasks at priority `level` and the others, each in input order.
fn split_level(v: Vec<SimProcess>, level: u8) -> (r: (Vec<SimProcess>, Vec<SimProcess>))
    ensures
        r.0@ == at_level(v@, level as int),
        r.1@ == off_level(v@, level as int),
{
    let mut rest = v;
    let mut class: Vec<SimProcess> = Vec::new();
    let mut others: Vec<SimProcess> = Vec::new();
    let ghost k: int = 0;
    while rest.len() > 0
        invariant
            0 <= k <= v.len(),
            rest@ == v@.skip(k),
            class@ == at_level(v@.take(k), level as int),
            others@ == off_level(v@.take(k), level as int),
        decreases rest.len(),
    {
        let p = rest.remove(0);
        let ghost prev = v@.take(k);
        proof {
            broadcast use Seq::lemma_filter_push;
            assert(v@.take(k + 1) =~= prev.push(p));
            assert(rest@ =~= v@.skip(k + 1));
            assert(at_level(prev.push(p), level as int) == if p.priority == level {
                at_level(prev, level as int).push(p)
            } else {
                at_level(prev, level as int)
            });
            assert(off_level(prev.push(p), level as int) == if p.priority != level {
                off_level(prev, level as int).push(p)
            } else {
                off_level(prev, level as int)
            });
            k = k + 1;
        }
        if p.priority == level {
            class.push(p);
        } else {
            others.push(p);
        }
    }
    assert(v@.take(k) =~= v@);
    (class, others)
}


pub(crate) proof fn lemma_waits_filter(s: Seq<SimProcess>, f: spec_fn(SimProcess) -> bool, bound: nat)
    requires
        waits_within(s, bound),
    ensures
        waits_within(s.filter(f), bound),
{
    assert forall|j: int| 0 <= j < s.filter(f).len() implies s.filter(f)[j].wait + bound <= u32::MAX by {
        let x = s.filter(f)[j];
        assert(s.filter(f).contains(x));
        s.lemma_filter_contains_rev(f, x);
    }
}

pub(crate) proof fn lemma_below_all(s: Seq<SimProcess>)
    ensures
        below(s, 256) == s,
    decreases s.len(),
{
    broadcast use Seq::lemma_filter_push;
    if s.len() > 0 {
        let t = s.drop_last();
        lemma_below_all(t);
        assert(s =~= t.push(s.last()));
    }
}

/// The round-robin clock advances by exactly the work in the queue.
pub(crate) proof fn lemma_rotate_clock(queue: Seq<SimProcess>, clock: nat)
    ensures
        rotate_from(queue, clock).1 == clock + total_burst(queue),
    decreases total_burst(queue), queue.len(),
{
    if queue.len() > 0 {
        let head = after_slice(queue[0]);
        let rest = charge(queue.drop_first(), slice(queue[0]));
        lemma_total_charge(queue.drop_first(), slice(queue[0]));
        lemma_total_remove(queue, 0);
        assert(queue.remove(0) =~= queue.drop_first());
        lemma_total_push(rest, head);
        if head.burst == 0 {
            lemma_rotate_clock(rest, clock + slice(queue[0]));
        } else {
            lemma_rotate_clock(rest.push(head), clock + slice(queue[0]));
        }
    }
}

/// Runs the priority classes of `tasks` from the highest down, each round-robin.
fn run_classes(tasks: Vec<SimProcess>) -> (r: (Vec<SimProcess>, u32))
    requires
        total_burst(tasks@) <= u32::MAX,
        waits_fit(tasks@),
    ensures
        r.0@ == classes_from(tasks@, 255, 0).0,
        r.1 == classes_from(tasks@, 255, 0).1,
{
    let mut pending = tasks;
    let mut done: Vec<SimProcess> = Vec::new();
    let mut now: u32 = 0;
    let mut next: u16 = 256;
    proof {
        lemma_below_all(tasks@);
    }
    while next > 0
        invariant
            next <= 256,
            pending@ == below(tasks@, next as int),
            now + total_burst(pending@) == total_burst(tasks@),
            total_burst(tasks@) <= u32::MAX,
            waits_fit(tasks@),
            done@ + classes_from(tasks@, next - 1, now as nat).0 == classes_from(tasks@, 255, 0).0,
            classes_from(tasks@, next - 1, now as nat).1 == classes_from(tasks@, 255, 0).1,
        decreases next,
    {
        let level: u8 = (next - 1) as u8;
        let ghost lv = level as int;
        let (mut class, others) = split_level(pending, level);
        proof {
            lemma_filter_filter(
                tasks@,
                |p: SimProcess| (p.priority as int) < next as int,
                |p: SimProcess| p.priority as int == lv,
                |p: SimProcess| p.priority as int == lv,
            );
            lemma_filter_filter(
                tasks@,
                |p: SimProcess| (p.priority as int) < next as int,
                |p: SimProcess| p.priority as int != lv,
                |p: SimProcess| (p.priority as int) < lv,
            );
            lemma_total_split(pending@, lv);
            lemma_waits_filter(tasks@, |p: SimProcess| p.priority as int == lv, total_burst(tasks@));
        }
        assert(class@ == at_level(tasks@, lv));
        assert(others@ == below(tasks@, lv));
        let ghost plain = class@;
        charge_all(&mut class, now);
        proof {
            lemma_total_charge(plain, now as nat);
            lemma_rotate_clock(class@, now as nat);
        }
        let (mut finished, t) = run_rotation(class, now);
        let ghost old_done = done@;
        done.append(&mut finished);
        assert(done@ + classes_from(tasks@, lv - 1, t as nat).0 =~= old_done + classes_from(tasks@, lv, now as nat).0);
        pending = others;
        now = t;
        next = next - 1;
    }
    (done, now)
}


/// What running `policy` on `s` gives: the tasks in completion order, with
/// their final burst and wait, and the clock when the last one is done.
pub open spec fn schedule(policy: Policy, s: Seq<SimProcess>) -> (Seq<SimProcess>, nat) {
    match policy {
        Policy::RoundRobin => rotate_from(s, 0),
        Policy::PriorityRoundRobin => classes_from(s, 255, 0),
        _ => select_from(policy, s, 0),
    }
}

/// Whether the clock, and under the round-robin policies each task's wait,
/// stay within `u32` while `policy` runs on `s`.
pub open spec fn fits(policy: Policy, s: Seq<SimProcess>) -> bool {
    &&& total_burst(s) <= u32::MAX
    &&& (policy == Policy::RoundRobin || policy == Policy::PriorityRoundRobin) ==> waits_fit(s)
}

/// Runs `policy` on `tasks`: the tasks in completion order and the final clock.
pub fn simulate(policy: Policy, tasks: Vec<SimProcess>) -> (r: (Vec<SimProcess>, u32))
    requires
        fits(policy, tasks@),
    ensures
        r.0@ == schedule(policy, tasks@).0,
        r.1 == schedule(policy, tasks@).1,
{
    match policy {
        Policy::RoundRobin => run_rotation(tasks, 0),
        Policy::PriorityRoundRobin => run_classes(tasks),
        _ => run_selection(policy, tasks, 0),
    }
}

/// First-come, first-served: tasks run to completion in input order.
pub fn fcfs(tasks: Vec<SimProcess>) -> (r: Vec<SimProcess>)
    requires
        fits(Policy::Fcfs, tasks@),
    ensures
        r@ == schedule(Policy::Fcfs, tasks@).0,
{
    simulate(Policy::Fcfs, tasks).0
}

/// Shortest job first: the shortest remaining burst runs next, ties by input order.
pub fn sjf(tasks: Vec<SimProcess>) -> (r: Vec<SimProcess>)
    requires
        fits(Policy::Sjf, tasks@),
    ensures
        r@ == schedule(Policy::Sjf, tasks@).0,
{
    simulate(Policy::Sjf, tasks).0
}

/// Priority scheduling: the highest priority runs next, ties by input order.
pub fn priority(tasks: Vec<SimProcess>) -> (r: Vec<SimProcess>)
    requires
        fits(Policy::Priority, tasks@),
    ensures
        r@ == schedule(Policy::Priority, tasks@).0,
{
    simulate(Policy::Priority, tasks).0
}

/// Round robin with a time slice of `QUANTUM`, queue in input order.
pub fn round_robin(tasks: Vec<SimProcess>) -> (r: Vec<SimProcess>)
    requires
        fits(Policy::RoundRobin, tasks@),
    ensures
        r@ == schedule(Policy::RoundRobin, tasks@).0,
{
    simulate(Policy::RoundRobin, tasks).0
}

/// Priority classes from the highest down, round robin within each class.
pub fn priority_round_robin(tasks: Vec<SimProcess>) -> (r: Vec<SimProcess>)
    requires
        fits(Policy::PriorityRoundRobin, tasks@),
    ensures
        r@ == schedule(Policy::PriorityRoundRobin, tasks@).0,
{
    simulate(Policy::PriorityRoundRobin, tasks).0
}

} // verus!
