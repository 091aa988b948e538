use vstd::multiset::Multiset;
use vstd::prelude::*;
use crate::algo::{
    after_slice, at_level, below, charge, classes_from, lemma_below_all, lemma_filter_filter,
    lemma_pick_in_range, lemma_rotate_clock, lemma_total_charge, lemma_total_push,
    lemma_total_remove, lemma_total_split, off_level, pick, rotate_from, schedule, select_from, slice,
    total_burst, Policy, ahead, completed, fits, waits_fit, lemma_waits_filter,
};
use crate::sim::SimProcess;

verus! {

/// Whether every task of `s` has run to completion.
pub open spec fn all_complete(s: Seq<SimProcess>) -> bool {
    forall|k: int| 0 <= k < s.len() ==> #[trigger] s[k].burst == 0
}

proof fn lemma_select_outcome(policy: Policy, s: Seq<SimProcess>, clock: nat)
    ensures
        select_from(policy, s, clock).1 == clock + total_burst(s),
        select_from(policy, s, clock).0.len() == s.len(),
        all_complete(select_from(policy, s, clock).0),
    decreases s.len(),
{
    if s.len() > 0 {
        let i = pick(policy, s);
        lemma_pick_in_range(policy, s);
        lemma_total_remove(s, i);
        lemma_select_outcome(policy, s.remove(i), clock + s[i].burst as nat);
        let rest = select_from(policy, s.remove(i), clock + s[i].burst as nat);
        assert forall|k: int| 0 <= k < select_from(policy, s, clock).0.len() implies
            #[trigger] select_from(policy, s, clock).0[k].burst == 0 by {
            if k > 0 {
                assert(select_from(policy, s, clock).0[k] == rest.0[k - 1]);
            }
        }
    }
}

proof fn lemma_rotate_outcome(queue: Seq<SimProcess>, clock: nat)
    ensures
        rotate_from(queue, clock).1 == clock + total_burst(queue),
        rotate_from(queue, clock).0.len() == queue.len(),
        all_complete(rotate_from(queue, clock).0),
    decreases total_burst(queue), queue.len(),
{
    lemma_rotate_clock(queue, clock);
    if queue.len() > 0 {
        let head = after_slice(queue[0]);
        let run = slice(queue[0]);
        let rest = charge(queue.drop_first(), run);
        lemma_total_charge(queue.drop_first(), run);
        lemma_total_remove(queue, 0);
        assert(queue.remove(0) =~= queue.drop_first());
        lemma_total_push(rest, head);
        if head.burst == 0 {
            lemma_rotate_outcome(rest, clock + run);
            let r = rotate_from(rest, clock + run);
            assert forall|k: int| 0 <= k < rotate_from(queue, clock).0.len() implies
                #[trigger] rotate_from(queue, clock).0[k].burst == 0 by {
                if k > 0 {
                    assert(rotate_from(queue, clock).0[k] == r.0[k - 1]);
                }
            }
        } else {
            lemma_rotate_outcome(rest.push(head), clock + run);
        }
    }
}

proof fn lemma_below_none(s: Seq<SimProcess>)
    ensures
        below(s, 0).len() == 0,
{
    if below(s, 0).len() > 0 {
        s.lemma_filter_pred(|p: SimProcess| (p.priority as int) < 0, 0);
    }
}

proof fn lemma_classes_outcome(s: Seq<SimProcess>, level: int, clock: nat)
    requires
        -1 <= level <= 255,
    ensures
        classes_from(s, level, clock).1 == clock + total_burst(below(s, level + 1)),
        classes_from(s, level, clock).0.len() == below(s, level + 1).len(),
        all_complete(classes_from(s, level, clock).0),
    decreases level + 1,
{
    if level < 0 {
        lemma_below_none(s);
        assert(below(s, 0) =~= Seq::<SimProcess>::empty());
    } else {
        let class = charge(at_level(s, level), clock);
        let r = rotate_from(class, clock);
        lemma_total_charge(at_level(s, level), clock);
        lemma_rotate_outcome(class, clock);
        lemma_classes_outcome(s, level - 1, r.1);
        let rest = classes_from(s, level - 1, r.1);
        lemma_filter_filter(
            s,
            |p: SimProcess| (p.priority as int) < level + 1,
            |p: SimProcess| p.priority as int == level,
            |p: SimProcess| p.priority as int == level,
        );
        lemma_filter_filter(
            s,
            |p: SimProcess| (p.priority as int) < level + 1,
            |p: SimProcess| p.priority as int != level,
            |p: SimProcess| (p.priority as int) < level,
        );
        lemma_total_split(below(s, level + 1), level);
        assert forall|k: int| 0 <= k < classes_from(s, level, clock).0.len() implies
            #[trigger] classes_from(s, level, clock).0[k].burst == 0 by {
            if k >= r.0.len() {
                assert(classes_from(s, level, clock).0[k] == rest.0[k - r.0.len()]);
            } else {
                assert(classes_from(s, level, clock).0[k] == r.0[k]);
            }
        }
    }
}

/// Work is conserved: whatever the policy, the clock ends at the sum of the
/// initial bursts, and every task comes out exactly once.
pub proof fn lemma_work_conserved(policy: Policy, s: Seq<SimProcess>)
    ensures
        schedule(policy, s).1 == total_burst(s),
        schedule(policy, s).0.len() == s.len(),
{
    lemma_schedule_outcome(policy, s);
}

/// Every task has run to completion when a policy is done.
pub proof fn lemma_all_complete(policy: Policy, s: Seq<SimProcess>)
    ensures
        forall|k: int| 0 <= k < schedule(policy, s).0.len() ==> #[trigger] schedule(policy, s).0[k].burst == 0,
{
    lemma_schedule_outcome(policy, s);
}

proof fn lemma_schedule_outcome(policy: Policy, s: Seq<SimProcess>)
    ensures
        schedule(policy, s).1 == total_burst(s),
        schedule(policy, s).0.len() == s.len(),
        all_complete(schedule(policy, s).0),
{
    match policy {
        Policy::RoundRobin => lemma_rotate_outcome(s, 0),
        Policy::PriorityRoundRobin => {
            lemma_classes_outcome(s, 255, 0);
            lemma_below_all(s);
        },
        _ => lemma_select_outcome(policy, s, 0),
    }
}


/// Whether `x` and `y` are copies of one task: same name text, priority,
/// burst and wait.
pub open spec fn same_task(x: SimProcess, y: SimProcess) -> bool {
    &&& x.name@ == y.name@
    &&& x.priority == y.priority
    &&& x.burst == y.burst
    &&& x.wait == y.wait
}

/// Whether `a` and `b` are task by task copies of each other.
pub open spec fn copies(a: Seq<SimProcess>, b: Seq<SimProcess>) -> bool {
    &&& a.len() == b.len()
    &&& forall|i: int| 0 <= i < a.len() ==> same_task(#[trigger] a[i], b[i])
}

proof fn lemma_copies_pick(policy: Policy, a: Seq<SimProcess>, b: Seq<SimProcess>)
    requires
        copies(a, b),
    ensures
        pick(policy, a) == pick(policy, b),
    decreases a.len(),
{
    if a.len() > 1 {
        lemma_copies_pick(policy, a.drop_last(), b.drop_last());
        lemma_pick_in_range(policy, a.drop_last());
    }
}

proof fn lemma_copies_select(policy: Policy, a: Seq<SimProcess>, b: Seq<SimProcess>, clock: nat)
    requires
        copies(a, b),
    ensures
        copies(select_from(policy, a, clock).0, select_from(policy, b, clock).0),
        select_from(policy, a, clock).1 == select_from(policy, b, clock).1,
    decreases a.len(),
{
    if a.len() > 0 {
        let i = pick(policy, a);
        lemma_copies_pick(policy, a, b);
        lemma_pick_in_range(policy, a);
        let c2 = clock + a[i].burst as nat;
        assert(copies(a.remove(i), b.remove(i)));
        lemma_copies_select(policy, a.remove(i), b.remove(i), c2);
        let x = select_from(policy, a, clock).0;
        let y = select_from(policy, b, clock).0;
        let rx = select_from(policy, a.remove(i), c2).0;
        let ry = select_from(policy, b.remove(i), c2).0;
        assert forall|k: int| 0 <= k < x.len() implies same_task(#[trigger] x[k], y[k]) by {
            if k > 0 {
                assert(x[k] == rx[k - 1] && y[k] == ry[k - 1]);
            }
        }
    }
}

proof fn lemma_copies_rotate(a: Seq<SimProcess>, b: Seq<SimProcess>, clock: nat)
    requires
        copies(a, b),
    ensures
        copies(rotate_from(a, clock).0, rotate_from(b, clock).0),
        rotate_from(a, clock).1 == rotate_from(b, clock).1,
    decreases total_burst(a), a.len(),
{
    if a.len() > 0 {
        let run = slice(a[0]);
        let ha = after_slice(a[0]);
        let hb = after_slice(b[0]);
        let ra = charge(a.drop_first(), run);
        let rb = charge(b.drop_first(), run);
        assert(copies(ra, rb));
        lemma_total_charge(a.drop_first(), run);
        lemma_total_remove(a, 0);
        assert(a.remove(0) =~= a.drop_first());
        lemma_total_push(ra, ha);
        if ha.burst == 0 {
            lemma_copies_rotate(ra, rb, clock + run);
            let x = rotate_from(a, clock).0;
            let y = rotate_from(b, clock).0;
            let rx = rotate_from(ra, clock + run).0;
            let ry = rotate_from(rb, clock + run).0;
            assert forall|k: int| 0 <= k < x.len() implies same_task(#[trigger] x[k], y[k]) by {
                if k > 0 {
                    assert(x[k] == rx[k - 1] && y[k] == ry[k - 1]);
                }
            }
        } else {
            assert(copies(ra.push(ha), rb.push(hb)));
            lemma_copies_rotate(ra.push(ha), rb.push(hb), clock + run);
        }
    }
}

proof fn lemma_copies_level(a: Seq<SimProcess>, b: Seq<SimProcess>, level: int)
    requires
        copies(a, b),
    ensures
        copies(at_level(a, level), at_level(b, level)),
    decreases a.len(),
{
    broadcast use Seq::lemma_filter_push;
    if a.len() > 0 {
        let (ta, tb) = (a.drop_last(), b.drop_last());
        lemma_copies_level(ta, tb, level);
        assert(a =~= ta.push(a.last()));
        assert(b =~= tb.push(b.last()));
    }
}

proof fn lemma_copies_concat(a: Seq<SimProcess>, b: Seq<SimProcess>, c: Seq<SimProcess>, d: Seq<SimProcess>)
    requires
        copies(a, b),
        copies(c, d),
    ensures
        copies(a + c, b + d),
{
    assert forall|i: int| 0 <= i < (a + c).len() implies same_task(#[trigger] (a + c)[i], (b + d)[i]) by {
        if i >= a.len() {
            assert(same_task(c[i - a.len()], d[i - a.len()]));
        } else {
            assert(same_task(a[i], b[i]));
        }
    }
}

proof fn lemma_copies_classes(a: Seq<SimProcess>, b: Seq<SimProcess>, level: int, clock: nat)
    requires
        copies(a, b),
    ensures
        copies(classes_from(a, level, clock).0, classes_from(b, level, clock).0),
        classes_from(a, level, clock).1 == classes_from(b, level, clock).1,
    decreases level + 1,
{
    if level >= 0 {
        lemma_copies_level(a, b, level);
        let ca = charge(at_level(a, level), clock);
        let cb = charge(at_level(b, level), clock);
        assert(copies(ca, cb));
        lemma_copies_rotate(ca, cb, clock);
        let r = rotate_from(ca, clock);
        lemma_copies_classes(a, b, level - 1, r.1);
        lemma_copies_concat(r.0, rotate_from(cb, clock).0, classes_from(a, level - 1, r.1).0, classes_from(b, level - 1, r.1).0);
    }
}

/// Running a policy again on a fresh copy of the same tasks gives the same
/// tasks in the same order with the same waits, and the same final clock.
pub proof fn lemma_rerun_identical(policy: Policy, a: Seq<SimProcess>, b: Seq<SimProcess>)
    requires
        copies(a, b),
    ensures
        copies(schedule(policy, a).0, schedule(policy, b).0),
        schedule(policy, a).1 == schedule(policy, b).1,
{
    match policy {
        Policy::RoundRobin => lemma_copies_rotate(a, b, 0),
        Policy::PriorityRoundRobin => lemma_copies_classes(a, b, 255, 0),
        _ => lemma_copies_select(policy, a, b, 0),
    }
}


/// The tasks of `s` whose priority is over `level`, in input order.
pub open spec fn above(s: Seq<SimProcess>, level: int) -> Seq<SimProcess> {
    s.filter(|p: SimProcess| (p.priority as int) > level)
}

proof fn lemma_total_filter(s: Seq<SimProcess>, f: spec_fn(SimProcess) -> bool)
    ensures
        total_burst(s.filter(f)) <= total_burst(s),
    decreases s.len(),
{
    broadcast use Seq::lemma_filter_push;
    if s.len() > 0 {
        let t = s.drop_last();
        lemma_total_filter(t, f);
        assert(s =~= t.push(s.last()));
        lemma_total_push(t.filter(f), s.last());
    }
}

/// Whether `x` is at priority `level` and has waited at least `least`, or
/// else is a task of `origin` that has nothing left to run.
pub open spec fn held(x: SimProcess, level: int, least: nat, origin: Seq<SimProcess>) -> bool {
    &&& x.priority == level
    &&& x.wait >= least || (x.burst == 0 && origin.contains(x))
}

proof fn lemma_rotate_keeps(queue: Seq<SimProcess>, clock: nat, level: int, least: nat, origin: Seq<SimProcess>)
    requires
        waits_fit(queue),
        forall|j: int| 0 <= j < queue.len() ==> held(#[trigger] queue[j], level, least, origin),
    ensures
        forall|k: int| 0 <= k < rotate_from(queue, clock).0.len() ==>
            held(#[trigger] rotate_from(queue, clock).0[k], level, least, origin),
    decreases total_burst(queue), queue.len(),
{
    if queue.len() > 0 {
        let run = slice(queue[0]);
        let head = after_slice(queue[0]);
        let rest = charge(queue.drop_first(), run);
        lemma_total_charge(queue.drop_first(), run);
        lemma_total_remove(queue, 0);
        assert(queue.remove(0) =~= queue.drop_first());
        lemma_total_push(rest, head);
        assert(queue[0].wait + total_burst(queue) <= u32::MAX);
        assert(held(queue[0], level, least, origin));
        assert(held(head, level, least, origin)) by {
            if queue[0].burst == 0 {
                assert(head == queue[0]);
            }
        }
        assert forall|j: int| 0 <= j < rest.len() implies held(#[trigger] rest[j], level, least, origin)
            && rest[j].wait + total_burst(rest) <= u32::MAX by {
            assert(queue[j + 1].wait + total_burst(queue) <= u32::MAX);
            assert(held(queue[j + 1], level, least, origin));
            if queue[j + 1].burst == 0 {
                assert(rest[j] == queue[j + 1]);
            }
        }
        if head.burst == 0 {
            lemma_rotate_keeps(rest, clock + run, level, least, origin);
            let x = rotate_from(queue, clock).0;
            let r = rotate_from(rest, clock + run).0;
            assert forall|k: int| 0 <= k < x.len() implies held(#[trigger] x[k], level, least, origin) by {
                if k > 0 {
                    assert(x[k] == r[k - 1]);
                } else {
                    assert(x[0] == head);
                }
            }
        } else {
            let next = rest.push(head);
            assert forall|j: int| 0 <= j < next.len() implies held(#[trigger] next[j], level, least, origin)
                && next[j].wait + total_burst(next) <= u32::MAX by {
                if j < rest.len() {
                    assert(next[j] == rest[j]);
                }
            }
            lemma_rotate_keeps(next, clock + run, level, least, origin);
            assert(rotate_from(queue, clock) == rotate_from(next, clock + run));
        }
    }
}

proof fn lemma_classes_keep(s: Seq<SimProcess>, level: int, clock: nat)
    requires
        -1 <= level <= 255,
        fits(Policy::PriorityRoundRobin, s),
        clock == total_burst(above(s, level)),
    ensures
        forall|k: int| 0 <= k < classes_from(s, level, clock).0.len() ==> {
            let x = #[trigger] classes_from(s, level, clock).0[k];
            &&& x.priority <= level
            &&& held(x, x.priority as int, total_burst(above(s, x.priority as int)), s)
        },
        forall|i: int, k: int| 0 <= i < k < classes_from(s, level, clock).0.len() ==>
            (#[trigger] classes_from(s, level, clock).0[i]).priority >= (#[trigger] classes_from(s, level, clock).0[k]).priority,
    decreases level + 1,
{
    if level >= 0 {
        let class = at_level(s, level);
        let charged = charge(class, clock);
        let r = rotate_from(charged, clock);
        lemma_filter_filter(
            s,
            |p: SimProcess| (p.priority as int) > level - 1,
            |p: SimProcess| p.priority as int == level,
            |p: SimProcess| p.priority as int == level,
        );
        lemma_filter_filter(
            s,
            |p: SimProcess| (p.priority as int) > level - 1,
            |p: SimProcess| p.priority as int != level,
            |p: SimProcess| (p.priority as int) > level,
        );
        lemma_total_split(above(s, level - 1), level);
        lemma_total_filter(s, |p: SimProcess| (p.priority as int) > level - 1);
        lemma_total_charge(class, clock);
        lemma_waits_filter(s, |p: SimProcess| p.priority as int == level, total_burst(s));
        assert forall|j: int| 0 <= j < charged.len() implies held(#[trigger] charged[j], level, clock, s)
            && charged[j].wait + total_burst(charged) <= u32::MAX by {
            let x = class[j];
            assert(class.contains(x));
            s.lemma_filter_contains_rev(|p: SimProcess| p.priority as int == level, x);
            s.lemma_filter_pred(|p: SimProcess| p.priority as int == level, j);
        }
        lemma_rotate_keeps(charged, clock, level, clock, s);
        lemma_rotate_clock(charged, clock);
        lemma_classes_keep(s, level - 1, r.1);
        let out = classes_from(s, level, clock).0;
        let rest = classes_from(s, level - 1, r.1).0;
        assert forall|k: int| 0 <= k < out.len() implies {
            let x = #[trigger] out[k];
            &&& x.priority <= level
            &&& held(x, x.priority as int, total_burst(above(s, x.priority as int)), s)
        } by {
            if k >= r.0.len() {
                assert(out[k] == rest[k - r.0.len()]);
            } else {
                assert(out[k] == r.0[k]);
                assert(held(r.0[k], level, clock, s));
            }
        }
        assert forall|i: int, k: int| 0 <= i < k < out.len() implies
            (#[trigger] out[i]).priority >= (#[trigger] out[k]).priority by {
            if k >= r.0.len() {
                assert(out[k] == rest[k - r.0.len()]);
                if i >= r.0.len() {
                    assert(out[i] == rest[i - r.0.len()]);
                } else {
                    assert(out[i] == r.0[i]);
                    assert(held(r.0[i], level, clock, s));
                }
            } else {
                assert(out[k] == r.0[k]);
                assert(out[i] == r.0[i]);
                assert(held(r.0[i], level, clock, s));
                assert(held(r.0[k], level, clock, s));
            }
        }
    }
}

/// Under priority with round robin, classes do not mix: tasks complete in
/// order of non-increasing priority, and each task has waited at least the
/// whole work of every task of higher priority. The one exception is a task
/// with nothing to run, which is never dispatched and comes out as it went in.
pub proof fn lemma_classes_isolated(s: Seq<SimProcess>)
    requires
        fits(Policy::PriorityRoundRobin, s),
    ensures
        forall|i: int, k: int| 0 <= i < k < schedule(Policy::PriorityRoundRobin, s).0.len() ==>
            (#[trigger] schedule(Policy::PriorityRoundRobin, s).0[i]).priority
                >= (#[trigger] schedule(Policy::PriorityRoundRobin, s).0[k]).priority,
        forall|k: int| 0 <= k < schedule(Policy::PriorityRoundRobin, s).0.len() ==> {
            let x = #[trigger] schedule(Policy::PriorityRoundRobin, s).0[k];
            x.wait >= total_burst(above(s, x.priority as int)) || (x.burst == 0 && s.contains(x))
        },
{
    assert(above(s, 255).len() == 0) by {
        if above(s, 255).len() > 0 {
            s.lemma_filter_pred(|p: SimProcess| (p.priority as int) > 255, 0);
        }
    }
    assert(above(s, 255) =~= Seq::<SimProcess>::empty());
    lemma_classes_keep(s, 255, 0);
}

/// A selection policy dispatches the first of the best remaining tasks: no
/// task is strictly ahead of it, and it is strictly ahead of every task
/// before it in the input (shortest burst, or highest priority, with ties
/// going to the earliest task).
pub proof fn lemma_pick_first_best(policy: Policy, s: Seq<SimProcess>)
    requires
        s.len() > 0,
    ensures
        0 <= pick(policy, s) < s.len(),
        forall|j: int| 0 <= j < s.len() ==> !ahead(policy, #[trigger] s[j], s[pick(policy, s)]),
        forall|j: int| 0 <= j < pick(policy, s) ==> ahead(policy, s[pick(policy, s)], #[trigger] s[j]),
    decreases s.len(),
{
    lemma_pick_in_range(policy, s);
    if s.len() > 1 {
        let t = s.drop_last();
        lemma_pick_first_best(policy, t);
        assert forall|j: int| 0 <= j < t.len() implies #[trigger] s[j] == t[j] by {}
    }
}

/// First-come, first-served keeps the input order, and each task waits
/// exactly the bursts of the tasks before it.
pub proof fn lemma_fcfs_in_order(s: Seq<SimProcess>)
    ensures
        schedule(Policy::Fcfs, s).0.len() == s.len(),
        forall|i: int| 0 <= i < s.len() ==>
            #[trigger] schedule(Policy::Fcfs, s).0[i] == completed(s[i], total_burst(s.take(i))),
{
    lemma_fcfs_from(s, 0);
}

proof fn lemma_fcfs_from(s: Seq<SimProcess>, clock: nat)
    ensures
        select_from(Policy::Fcfs, s, clock).0.len() == s.len(),
        forall|i: int| 0 <= i < s.len() ==>
            #[trigger] select_from(Policy::Fcfs, s, clock).0[i] == completed(s[i], clock + total_burst(s.take(i))),
    decreases s.len(),
{
    if s.len() > 0 {
        let t = s.drop_first();
        let c2 = clock + s[0].burst as nat;
        assert(pick(Policy::Fcfs, s) == 0) by {
            lemma_pick_first_best(Policy::Fcfs, s);
        }
        assert(s.remove(0) =~= t);
        lemma_fcfs_from(t, c2);
        let out = select_from(Policy::Fcfs, s, clock).0;
        let rest = select_from(Policy::Fcfs, t, c2).0;
        assert forall|i: int| 0 <= i < s.len() implies #[trigger] out[i] == completed(s[i], clock + total_burst(s.take(i))) by {
            if i > 0 {
                assert(out[i] == rest[i - 1]);
                lemma_total_remove(s.take(i), 0);
                assert(s.take(i).remove(0) =~= t.take(i - 1));
            } else {
                assert(s.take(0) =~= Seq::<SimProcess>::empty());
            }
        }
    }
}


/// What identifies a task: its name text and its priority.
pub open spec fn identity(p: SimProcess) -> (Seq<char>, u8) {
    (p.name@, p.priority)
}

/// The identities of the tasks of `s`, counted with repetition.
pub open spec fn identities(s: Seq<SimProcess>) -> Multiset<(Seq<char>, u8)>
    decreases s.len(),
{
    if s.len() == 0 {
        Multiset::empty()
    } else {
        identities(s.drop_last()).insert(identity(s.last()))
    }
}

proof fn lemma_identities_concat(a: Seq<SimProcess>, b: Seq<SimProcess>)
    ensures
        identities(a + b) == identities(a).add(identities(b)),
    decreases b.len(),
{
    if b.len() == 0 {
        assert(a + b =~= a);
        assert(identities(a).add(identities(b)) =~= identities(a));
    } else {
        lemma_identities_concat(a, b.drop_last());
        assert((a + b).drop_last() =~= a + b.drop_last());
        assert(identities(a + b) =~= identities(a).add(identities(b)));
    }
}

proof fn lemma_identities_front(s: Seq<SimProcess>)
    requires
        s.len() > 0,
    ensures
        identities(s) == identities(s.drop_first()).insert(identity(s[0])),
{
    lemma_identities_concat(seq![s[0]], s.drop_first());
    assert(seq![s[0]] + s.drop_first() =~= s);
    let one = seq![s[0]];
    assert(one.drop_last() =~= Seq::<SimProcess>::empty());
    assert(identities(Seq::<SimProcess>::empty()) == Multiset::<(Seq<char>, u8)>::empty());
    assert(one.last() == s[0]);
    assert(identities(one) == Multiset::<(Seq<char>, u8)>::empty().insert(identity(s[0])));
    assert(identities(one).add(identities(s.drop_first())) =~= identities(s.drop_first()).insert(identity(s[0])));
}

proof fn lemma_identities_remove(s: Seq<SimProcess>, i: int)
    requires
        0 <= i < s.len(),
    ensures
        identities(s) == identities(s.remove(i)).insert(identity(s[i])),
{
    let a = s.take(i);
    let b = s.skip(i);
    assert(s =~= a + b);
    assert(s.remove(i) =~= a + b.drop_first());
    lemma_identities_concat(a, b);
    lemma_identities_concat(a, b.drop_first());
    lemma_identities_front(b);
    assert(identities(s) =~= identities(s.remove(i)).insert(identity(s[i])));
}

proof fn lemma_identities_charge(s: Seq<SimProcess>, run: nat)
    ensures
        identities(charge(s, run)) == identities(s),
    decreases s.len(),
{
    if s.len() > 0 {
        lemma_identities_charge(s.drop_last(), run);
        assert(charge(s, run).drop_last() =~= charge(s.drop_last(), run));
    }
}

proof fn lemma_identities_split(s: Seq<SimProcess>, level: int)
    ensures
        identities(s) == identities(at_level(s, level)).add(identities(off_level(s, level))),
    decreases s.len(),
{
    broadcast use Seq::lemma_filter_push;
    if s.len() == 0 {
        assert(identities(at_level(s, level)).add(identities(off_level(s, level))) =~= identities(s));
    } else {
        let t = s.drop_last();
        lemma_identities_split(t, level);
        assert(s =~= t.push(s.last()));
        if s.last().priority as int == level {
            assert(at_level(s, level).drop_last() =~= at_level(t, level));
        } else {
            assert(off_level(s, level).drop_last() =~= off_level(t, level));
        }
        assert(identities(s) =~= identities(at_level(s, level)).add(identities(off_level(s, level))));
    }
}

proof fn lemma_identities_select(policy: Policy, s: Seq<SimProcess>, clock: nat)
    ensures
        identities(select_from(policy, s, clock).0) == identities(s),
    decreases s.len(),
{
    if s.len() > 0 {
        let i = pick(policy, s);
        lemma_pick_in_range(policy, s);
        let c2 = clock + s[i].burst as nat;
        lemma_identities_select(policy, s.remove(i), c2);
        lemma_identities_remove(s, i);
        lemma_identities_front(select_from(policy, s, clock).0);
        assert(select_from(policy, s, clock).0.drop_first() =~= select_from(policy, s.remove(i), c2).0);
    }
}

proof fn lemma_identities_rotate(queue: Seq<SimProcess>, clock: nat)
    ensures
        identities(rotate_from(queue, clock).0) == identities(queue),
    decreases total_burst(queue), queue.len(),
{
    if queue.len() > 0 {
        let run = slice(queue[0]);
        let head = after_slice(queue[0]);
        let rest = charge(queue.drop_first(), run);
        lemma_total_charge(queue.drop_first(), run);
        lemma_total_remove(queue, 0);
        assert(queue.remove(0) =~= queue.drop_first());
        lemma_total_push(rest, head);
        lemma_identities_charge(queue.drop_first(), run);
        lemma_identities_front(queue);
        if head.burst == 0 {
            lemma_identities_rotate(rest, clock + run);
            lemma_identities_front(rotate_from(queue, clock).0);
            assert(rotate_from(queue, clock).0.drop_first() =~= rotate_from(rest, clock + run).0);
        } else {
            lemma_identities_rotate(rest.push(head), clock + run);
            assert(rest.push(head).drop_last() =~= rest);
        }
    }
}

proof fn lemma_identities_classes(s: Seq<SimProcess>, level: int, clock: nat)
    requires
        -1 <= level <= 255,
    ensures
        identities(classes_from(s, level, clock).0) == identities(below(s, level + 1)),
    decreases level + 1,
{
    if level < 0 {
        lemma_below_none(s);
        assert(below(s, 0) =~= Seq::<SimProcess>::empty());
    } else {
        let charged = charge(at_level(s, level), clock);
        let r = rotate_from(charged, clock);
        lemma_identities_rotate(charged, clock);
        lemma_identities_charge(at_level(s, level), clock);
        lemma_identities_classes(s, level - 1, r.1);
        lemma_identities_concat(r.0, classes_from(s, level - 1, r.1).0);
        lemma_filter_filter(
            s,
            |p: SimProcess| (p.priority as int) < level + 1,
            |p: SimProcess| p.priority as int == level,
            |p: SimProcess| p.priority as int == level,
        );
        lemma_filter_filter(
            s,
            |p: SimProcess| (p.priority as int) < level + 1,
            |p: SimProcess| p.priority as int != level,
            |p: SimProcess| (p.priority as int) < level,
        );
        lemma_identities_split(below(s, level + 1), level);
    }
}

/// No policy creates, drops or duplicates a task: the output holds the
/// same task identities as the input, as many times each.
pub proof fn lemma_same_tasks(policy: Policy, s: Seq<SimProcess>)
    ensures
        identities(schedule(policy, s).0) == identities(s),
{
    match policy {
        Policy::RoundRobin => lemma_identities_rotate(s, 0),
        Policy::PriorityRoundRobin => {
            lemma_identities_classes(s, 255, 0);
            lemma_below_all(s);
        },
        _ => lemma_identities_select(policy, s, 0),
    }
}


proof fn lemma_level_empty(s: Seq<SimProcess>, level: int)
    requires
        forall|j: int| 0 <= j < s.len() ==> (#[trigger] s[j]).priority as int != level,
    ensures
        at_level(s, level) == Seq::<SimProcess>::empty(),
{
    if at_level(s, level).len() > 0 {
        let x = at_level(s, level)[0];
        assert(at_level(s, level).contains(x));
        s.lemma_filter_contains_rev(|p: SimProcess| p.priority as int == level, x);
        s.lemma_filter_pred(|p: SimProcess| p.priority as int == level, 0);
    }
    assert(at_level(s, level) =~= Seq::<SimProcess>::empty());
}

proof fn lemma_charge_none(s: Seq<SimProcess>)
    ensures
        charge(s, 0) == s,
{
    assert(charge(s, 0) =~= s);
}

proof fn lemma_classes_skip_empty(s: Seq<SimProcess>, level: int, top: int)
    requires
        0 <= top <= level <= 255,
        forall|j: int| 0 <= j < s.len() ==> (#[trigger] s[j]).priority as int <= top,
    ensures
        classes_from(s, level, 0) == classes_from(s, top, 0),
    decreases level,
{
    if level > top {
        lemma_level_empty(s, level);
        lemma_charge_none(Seq::<SimProcess>::empty());
        assert(rotate_from(Seq::<SimProcess>::empty(), 0) == (Seq::<SimProcess>::empty(), 0nat));
        lemma_classes_skip_empty(s, level - 1, top);
        assert(classes_from(s, level, 0).0 =~= classes_from(s, level - 1, 0).0);
    }
}

/// Under priority with round robin, the highest class present runs first
/// exactly as plain round robin would run it alone: its tasks come out first,
/// in the same order and with the same waits.
pub proof fn lemma_top_class_is_round_robin(s: Seq<SimProcess>, top: u8)
    requires
        forall|j: int| 0 <= j < s.len() ==> (#[trigger] s[j]).priority <= top,
    ensures
        schedule(Policy::PriorityRoundRobin, s).0.take(at_level(s, top as int).len() as int)
            == schedule(Policy::RoundRobin, at_level(s, top as int)).0,
{
    let class = at_level(s, top as int);
    lemma_classes_skip_empty(s, 255, top as int);
    lemma_charge_none(class);
    lemma_rotate_outcome(class, 0);
    let r = rotate_from(class, 0);
    let out = classes_from(s, top as int, 0).0;
    assert(out == r.0 + classes_from(s, top - 1, r.1).0);
    assert(out.take(class.len() as int) =~= r.0);
}

} // verus!
