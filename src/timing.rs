use vstd::arithmetic::div_mod::{
    lemma_div_is_ordered, lemma_div_is_ordered_by_denominator, lemma_fundamental_div_mod,
};
use vstd::prelude::*;

use crate::error::ChipError;

verus! {

/// One scheduled subsystem as values: its cycle length and the cycles
/// already handed out.
pub struct SystemModel {
    pub duration: nat,
    pub elapsed: nat,
}

/// When the subsystem's next cycle that was not yet handed out is due.
pub open spec fn next_due(s: SystemModel) -> nat {
    s.duration * (s.elapsed + 1)
}

/// How many cycles of length `duration` fall due strictly before `required`
/// nanoseconds: those `k >= 1` with `k * duration < required`.
pub open spec fn ticks_before(duration: nat, required: nat) -> nat {
    if required == 0 || duration == 0 {
        0
    } else {
        ((required - 1) as nat / duration) as nat
    }
}

/// The cycles of `s` that are due before `required` and not yet handed out.
pub open spec fn backlog(s: SystemModel, required: nat) -> nat {
    let t = ticks_before(s.duration, required);
    if s.elapsed < t {
        (t - s.elapsed) as nat
    } else {
        0
    }
}

/// The backlogs of the first `n` subsystems, added up.
pub open spec fn total_backlog(ss: Seq<SystemModel>, required: nat, n: int) -> nat
    decreases n,
{
    if n <= 0 {
        0
    } else {
        total_backlog(ss, required, n - 1) + backlog(ss[n - 1], required)
    }
}

/// Among the first `n` subsystems, the index of the one due soonest; the
/// earliest in the roster among equals.
pub open spec fn soonest(ss: Seq<SystemModel>, n: int) -> int
    decreases n,
{
    if n <= 1 {
        0
    } else {
        let k = soonest(ss, n - 1);
        if next_due(ss[n - 1]) < next_due(ss[k]) {
            n - 1
        } else {
            k
        }
    }
}

/// Among the first `n` subsystems other than `s`, the soonest due time, if any.
pub open spec fn runner_up_due(ss: Seq<SystemModel>, s: int, n: int) -> Option<nat>
    decreases n,
{
    if n <= 0 {
        None
    } else {
        let prev = runner_up_due(ss, s, n - 1);
        if n - 1 == s {
            prev
        } else {
            match prev {
                None => Some(next_due(ss[n - 1])),
                Some(d) => Some(
                    if next_due(ss[n - 1]) < d {
                        next_due(ss[n - 1])
                    } else {
                        d
                    },
                ),
            }
        }
    }
}

/// How many cycles `s` can run before its next due time passes `target`: at
/// least one, and the gap rounded up to whole cycles.
pub open spec fn cycles_until(s: SystemModel, target: nat) -> nat {
    if target <= next_due(s) || s.duration == 0 {
        1
    } else {
        ((target - next_due(s) + s.duration - 1) as nat / s.duration) as nat
    }
}

/// Whether a subsystem has a cycle due before `required`.
pub open spec fn has_pending(ss: Seq<SystemModel>, required: nat) -> bool {
    &&& ss.len() > 0
    &&& next_due(ss[soonest(ss, ss.len() as int)]) < required
    &&& ss[soonest(ss, ss.len() as int)].duration > 0
}

/// The size of the next batch: the soonest subsystem runs until it would pass
/// the runner-up, but never beyond its own backlog.
pub open spec fn batch_cycles(ss: Seq<SystemModel>, required: nat) -> nat {
    let s = soonest(ss, ss.len() as int);
    let left = backlog(ss[s], required);
    match runner_up_due(ss, s, ss.len() as int) {
        None => left,
        Some(d) => {
            let c = cycles_until(ss[s], d);
            if c < left {
                c
            } else {
                left
            }
        },
    }
}

/// `ss` with `k` more cycles of subsystem `s` handed out.
pub open spec fn advance(ss: Seq<SystemModel>, s: int, k: nat) -> Seq<SystemModel> {
    ss.update(s, SystemModel { elapsed: ss[s].elapsed + k, ..ss[s] })
}

/// One batch of the schedule: `cycles` cycles of subsystem `system`, the
/// first of them due at `first_due`.
pub struct Batch {
    pub system: int,
    pub cycles: nat,
    pub first_due: nat,
}

/// The batches that bring every subsystem up to `required` nanoseconds, in order.
pub open spec fn schedule(ss: Seq<SystemModel>, required: nat) -> Seq<Batch>
    decreases total_backlog(ss, required, ss.len() as int),
{
    if has_pending(ss, required) {
        let s = soonest(ss, ss.len() as int);
        let k = batch_cycles(ss, required);
        proof {
            lemma_batch_progress(ss, required);
        }
        seq![Batch { system: s, cycles: k, first_due: next_due(ss[s]) }] + schedule(
            advance(ss, s, k),
            required,
        )
    } else {
        Seq::empty()
    }
}

/// The subsystems after every batch of `schedule(ss, required)` was handed out.
pub open spec fn run(ss: Seq<SystemModel>, required: nat) -> Seq<SystemModel>
    decreases total_backlog(ss, required, ss.len() as int),
{
    if has_pending(ss, required) {
        let s = soonest(ss, ss.len() as int);
        let k = batch_cycles(ss, required);
        proof {
            lemma_batch_progress(ss, required);
        }
        run(advance(ss, s, k), required)
    } else {
        ss
    }
}

/// A cycle is due before `required` exactly when it is among the ticks before it.
pub proof fn lemma_due_before(duration: nat, m: nat, required: nat)
    requires
        duration > 0,
        m >= 1,
    ensures
        (duration * m < required) == (m <= ticks_before(duration, required)),
{
    if required > 0 {
        let a = (required - 1) as int;
        let t = a / duration as int;
        lemma_fundamental_div_mod(a, duration as int);
        let r = a % duration as int;
        assert((duration * m <= a) == (m <= t)) by (nonlinear_arith)
            requires
                a == duration * t + r,
                0 <= r < duration,
                duration > 0,
                m >= 1,
        ;
    } else {
        assert(duration * m >= 0) by (nonlinear_arith);
    }
}

/// The soonest subsystem lies among the first `n` and is due no later than any of them.
pub proof fn lemma_soonest_is_first(ss: Seq<SystemModel>, n: int)
    requires
        1 <= n <= ss.len(),
    ensures
        0 <= soonest(ss, n) < n,
        forall|j: int| 0 <= j < n ==> next_due(ss[soonest(ss, n)]) <= #[trigger] next_due(ss[j]),
    decreases n,
{
    if n > 1 {
        lemma_soonest_is_first(ss, n - 1);
    }
}

/// The runner-up due time, where there is one, is that of some subsystem other
/// than `s`, and no later than any of them.
pub proof fn lemma_runner_up(ss: Seq<SystemModel>, s: int, n: int)
    requires
        0 <= n <= ss.len(),
    ensures
        runner_up_due(ss, s, n) is None <==> (n == 0 || (n == 1 && s == 0)),
        runner_up_due(ss, s, n) is Some ==> forall|j: int|
            0 <= j < n && j != s ==> runner_up_due(ss, s, n)->0 <= #[trigger] next_due(ss[j]),
        runner_up_due(ss, s, n) is Some ==> exists|j: int|
            0 <= j < n && j != s && runner_up_due(ss, s, n)->0 == #[trigger] next_due(ss[j]),
    decreases n,
{
    if n > 0 {
        lemma_runner_up(ss, s, n - 1);
        if runner_up_due(ss, s, n - 1) is Some {
            let j = choose|j: int|
                0 <= j < n - 1 && j != s && runner_up_due(ss, s, n - 1)->0 == #[trigger] next_due(
                    ss[j],
                );
            if n - 1 != s && next_due(ss[n - 1]) >= runner_up_due(ss, s, n - 1)->0 {
                assert(runner_up_due(ss, s, n)->0 == next_due(ss[j]));
            }
        }
    }
}

/// Handing out `k` cycles of the backlog of `s` shrinks the total backlog by `k`.
pub proof fn lemma_backlog_advance(ss: Seq<SystemModel>, required: nat, s: int, k: nat, n: int)
    requires
        0 <= s < ss.len(),
        0 <= n <= ss.len(),
        k <= backlog(ss[s], required),
    ensures
        total_backlog(advance(ss, s, k), required, n) + (if s < n {
            k
        } else {
            0
        }) == total_backlog(ss, required, n),
    decreases n,
{
    if n > 0 {
        lemma_backlog_advance(ss, required, s, k, n - 1);
    }
}

/// A subsystem that is due before `required` has a backlog of at least one cycle.
pub proof fn lemma_pending_backlog(s: SystemModel, required: nat)
    requires
        s.duration > 0,
        next_due(s) < required,
    ensures
        backlog(s, required) >= 1,
        s.elapsed + 1 <= ticks_before(s.duration, required),
{
    lemma_due_before(s.duration, s.elapsed + 1, required);
}

/// Each batch hands out at least one cycle and no more than the backlog, so
/// the total backlog shrinks.
pub proof fn lemma_batch_progress(ss: Seq<SystemModel>, required: nat)
    requires
        has_pending(ss, required),
    ensures
        1 <= batch_cycles(ss, required) <= backlog(ss[soonest(ss, ss.len() as int)], required),
        0 <= soonest(ss, ss.len() as int) < ss.len(),
        total_backlog(
            advance(ss, soonest(ss, ss.len() as int), batch_cycles(ss, required)),
            required,
            ss.len() as int,
        ) < total_backlog(ss, required, ss.len() as int),
{
    let n = ss.len() as int;
    lemma_soonest_is_first(ss, n);
    let s = soonest(ss, n);
    lemma_pending_backlog(ss[s], required);
    match runner_up_due(ss, s, n) {
        None => {},
        Some(d) => {
            let dur = ss[s].duration;
            if d > next_due(ss[s]) {
                let gap = (d - next_due(ss[s])) as int;
                lemma_div_is_ordered(dur as int, gap + dur - 1, dur as int);
                assert(dur as int / dur as int == 1) by (nonlinear_arith)
                    requires
                        dur > 0,
                ;
            }
        },
    }
    lemma_backlog_advance(ss, required, s, batch_cycles(ss, required), n);
}

/// The cycles of subsystem `i` in the batches `bs`, added up.
pub open spec fn cycles_for(bs: Seq<Batch>, i: int) -> nat
    decreases bs.len(),
{
    if bs.len() == 0 {
        0
    } else {
        (if bs[0].system == i {
            bs[0].cycles
        } else {
            0
        }) + cycles_for(bs.drop_first(), i)
    }
}

/// `a` or `b`, whichever is larger.
pub open spec fn larger(a: nat, b: nat) -> nat {
    if a > b {
        a
    } else {
        b
    }
}

/// Handing out cycles keeps the roster's length and cycle lengths, and so
/// keeps it free of a stall.
proof fn lemma_advance_keeps_roster(ss: Seq<SystemModel>, required: nat)
    requires
        has_pending(ss, required),
        !stalled(ss, required),
    ensures
        ({
            let next = advance(ss, soonest(ss, ss.len() as int), batch_cycles(ss, required));
            &&& next.len() == ss.len()
            &&& forall|i: int| 0 <= i < ss.len() ==> (#[trigger] next[i]).duration == ss[i].duration
            &&& !stalled(next, required)
        }),
{
    lemma_batch_progress(ss, required);
    let next = advance(ss, soonest(ss, ss.len() as int), batch_cycles(ss, required));
    if stalled(next, required) {
        let i = choose|i: int| 0 <= i < next.len() && (#[trigger] next[i]).duration == 0;
        assert(ss[i].duration == 0);
    }
}

/// After the batches, each subsystem has handed out exactly the cycles due
/// before `required`, or what it had already handed out where that is more.
pub proof fn lemma_run_elapsed(ss: Seq<SystemModel>, required: nat)
    requires
        !stalled(ss, required),
    ensures
        run(ss, required).len() == ss.len(),
        forall|i: int|
            0 <= i < ss.len() ==> (#[trigger] run(ss, required)[i]).duration == ss[i].duration
                && run(ss, required)[i].elapsed == larger(
                ss[i].elapsed,
                ticks_before(ss[i].duration, required),
            ),
    decreases total_backlog(ss, required, ss.len() as int),
{
    if has_pending(ss, required) {
        lemma_batch_progress(ss, required);
        lemma_advance_keeps_roster(ss, required);
        let s = soonest(ss, ss.len() as int);
        lemma_pending_backlog(ss[s], required);
        lemma_run_elapsed(advance(ss, s, batch_cycles(ss, required)), required);
    } else if ss.len() > 0 {
        let s = soonest(ss, ss.len() as int);
        lemma_soonest_is_first(ss, ss.len() as int);
        assert forall|i: int| 0 <= i < ss.len() implies ss[i].elapsed >= ticks_before(
            ss[i].duration,
            required,
        ) by {
            if ss[i].duration > 0 && required > 0 {
                assert(next_due(ss[s]) <= next_due(ss[i]));
                if ss[s].duration == 0 {
                    assert(stalled(ss, required));
                }
                lemma_due_before(ss[i].duration, ss[i].elapsed + 1, required);
            }
        }
    }
}

/// Each subsystem's cycles in the batches are what brings it up to the
/// cycles due before `required`.
pub proof fn lemma_schedule_totals(ss: Seq<SystemModel>, required: nat)
    requires
        !stalled(ss, required),
    ensures
        forall|i: int|
            0 <= i < ss.len() ==> ss[i].elapsed + cycles_for(schedule(ss, required), i) == (#[trigger] run(
                ss,
                required,
            )[i]).elapsed,
    decreases total_backlog(ss, required, ss.len() as int),
{
    if has_pending(ss, required) {
        lemma_batch_progress(ss, required);
        lemma_advance_keeps_roster(ss, required);
        let s = soonest(ss, ss.len() as int);
        let k = batch_cycles(ss, required);
        let next = advance(ss, s, k);
        lemma_schedule_totals(next, required);
        lemma_run_elapsed(next, required);
        let b = Batch { system: s, cycles: k, first_due: next_due(ss[s]) };
        let all = schedule(ss, required);
        assert(all == seq![b] + schedule(next, required));
        assert(all.drop_first() =~= schedule(next, required));
        assert(all[0] == b);
        assert forall|i: int| 0 <= i < ss.len() implies ss[i].elapsed + cycles_for(all, i) == (
        #[trigger] run(ss, required)[i]).elapsed by {
            assert(cycles_for(all, i) == (if s == i {
                k
            } else {
                0
            }) + cycles_for(schedule(next, required), i));
            assert(run(ss, required)[i] == run(next, required)[i]);
        }
    }
    lemma_run_elapsed(ss, required);
}

/// Rate accuracy: the cycles that one call hands each subsystem bring its
/// count up to the number of its cycles due before `required` nanoseconds
/// (for a fresh roster, exactly that number), or leave it where it is already
/// past it.
pub proof fn lemma_cumulative_cycles(ss: Seq<SystemModel>, required: nat)
    requires
        !stalled(ss, required),
    ensures
        forall|i: int|
            0 <= i < ss.len() ==> ss[i].elapsed + #[trigger] cycles_for(schedule(ss, required), i)
                == larger(ss[i].elapsed, ticks_before(ss[i].duration, required)),
        forall|i: int|
            0 <= i < ss.len() && ss[i].elapsed == 0 ==> #[trigger] cycles_for(
                schedule(ss, required),
                i,
            ) == ticks_before(ss[i].duration, required),
{
    lemma_run_elapsed(ss, required);
    lemma_schedule_totals(ss, required);
    assert forall|i: int| 0 <= i < ss.len() implies ss[i].elapsed + #[trigger] cycles_for(
        schedule(ss, required),
        i,
    ) == larger(ss[i].elapsed, ticks_before(ss[i].duration, required)) by {
        assert(run(ss, required)[i].elapsed == larger(
            ss[i].elapsed,
            ticks_before(ss[i].duration, required),
        ));
    }
}

/// Cycles due before a later time never fall below those due before an earlier one.
pub proof fn lemma_ticks_monotone(duration: nat, earlier: nat, later: nat)
    requires
        earlier <= later,
    ensures
        ticks_before(duration, earlier) <= ticks_before(duration, later),
{
    if earlier > 0 && duration > 0 {
        lemma_div_is_ordered((earlier - 1) as int, (later - 1) as int, duration as int);
    }
}

/// Two calls, up to `first` and then up to `second`, hand each subsystem
/// the same cycles in all as one call up to `second`.
pub proof fn lemma_split_calls(ss: Seq<SystemModel>, first: nat, second: nat)
    requires
        first <= second,
        !stalled(ss, second),
    ensures
        forall|i: int|
            0 <= i < ss.len() ==> cycles_for(schedule(ss, first), i) + cycles_for(
                schedule(run(ss, first), second),
                i,
            ) == #[trigger] cycles_for(schedule(ss, second), i),
{
    if stalled(ss, first) {
        let i = choose|i: int| 0 <= i < ss.len() && (#[trigger] ss[i]).duration == 0;
        assert(stalled(ss, second));
    }
    lemma_run_elapsed(ss, first);
    let mid = run(ss, first);
    if stalled(mid, second) {
        let i = choose|i: int| 0 <= i < mid.len() && (#[trigger] mid[i]).duration == 0;
        assert(ss[i].duration == 0);
    }
    lemma_cumulative_cycles(ss, first);
    lemma_cumulative_cycles(ss, second);
    lemma_cumulative_cycles(mid, second);
    assert forall|i: int| 0 <= i < ss.len() implies cycles_for(schedule(ss, first), i) + cycles_for(
        schedule(run(ss, first), second),
        i,
    ) == #[trigger] cycles_for(schedule(ss, second), i) by {
        lemma_ticks_monotone(ss[i].duration, first, second);
        assert(mid[i].elapsed == larger(ss[i].elapsed, ticks_before(ss[i].duration, first)));
        assert(mid[i].elapsed + cycles_for(schedule(mid, second), i) == larger(
            mid[i].elapsed,
            ticks_before(mid[i].duration, second),
        ));
    }
}

/// Idempotence: once the batches up to `required` are handed out, a call
/// with the same or an earlier time finds nothing due and changes nothing.
pub proof fn lemma_schedule_idempotent(ss: Seq<SystemModel>, required: nat, again: nat)
    requires
        !stalled(ss, required),
        again <= required,
    ensures
        schedule(run(ss, required), again) == Seq::<Batch>::empty(),
        run(run(ss, required), again) == run(ss, required),
{
    lemma_run_elapsed(ss, required);
    let done = run(ss, required);
    if has_pending(done, again) {
        lemma_soonest_is_first(done, done.len() as int);
        let s = soonest(done, done.len() as int);
        assert(run(ss, required)[s] == done[s]);
        lemma_pending_backlog(done[s], again);
        lemma_ticks_monotone(done[s].duration, again, required);
        assert(done[s].elapsed >= ticks_before(ss[s].duration, required));
    }
}

/// Ordering: the batches come in the order in which their first cycles fall
/// due, and none starts before the cycle that was due soonest.
pub proof fn lemma_schedule_ordered(ss: Seq<SystemModel>, required: nat)
    ensures
        forall|a: int, b: int|
            0 <= a < b < schedule(ss, required).len() ==> (#[trigger] schedule(ss, required)[a]).first_due
                <= (#[trigger] schedule(ss, required)[b]).first_due,
        ss.len() > 0 ==> forall|a: int|
            0 <= a < schedule(ss, required).len() ==> next_due(ss[soonest(ss, ss.len() as int)])
                <= (#[trigger] schedule(ss, required)[a]).first_due,
    decreases total_backlog(ss, required, ss.len() as int),
{
    if has_pending(ss, required) {
        lemma_batch_progress(ss, required);
        let n = ss.len() as int;
        let s = soonest(ss, n);
        let k = batch_cycles(ss, required);
        let next = advance(ss, s, k);
        lemma_schedule_ordered(next, required);
        lemma_soonest_is_first(ss, n);
        lemma_soonest_is_first(next, n);
        let d = ss[s].duration;
        let e = ss[s].elapsed;
        assert(d * (e + 1) <= d * (e + k + 1)) by (nonlinear_arith);
        assert(next_due(ss[s]) <= next_due(next[soonest(next, n)])) by {
            let t = soonest(next, n);
            if t != s {
                assert(next[t] == ss[t]);
            }
        }
        let b = Batch { system: s, cycles: k, first_due: next_due(ss[s]) };
        let rest = schedule(next, required);
        assert(schedule(ss, required) == seq![b] + rest);
        assert forall|a: int, c: int|
            0 <= a < c < schedule(ss, required).len() implies (#[trigger] schedule(
            ss,
            required,
        )[a]).first_due <= (#[trigger] schedule(ss, required)[c]).first_due by {
            if a > 0 {
                assert(schedule(ss, required)[a] == rest[a - 1]);
            }
            assert(schedule(ss, required)[c] == rest[c - 1]);
        }
        assert forall|a: int| 0 <= a < schedule(ss, required).len() implies next_due(ss[s])
            <= (#[trigger] schedule(ss, required)[a]).first_due by {
            if a > 0 {
                assert(schedule(ss, required)[a] == rest[a - 1]);
            }
        }
    }
}

/// Causal order: the last cycle of the next batch falls due no later than
/// the next pending cycle of every other subsystem, so running the batches in
/// the order given never runs a cycle ahead of one that was due earlier. (Each
/// later batch is the next batch of the roster that the earlier ones leave.)
pub proof fn lemma_batch_causal(ss: Seq<SystemModel>, required: nat)
    requires
        has_pending(ss, required),
    ensures
        ({
            let s = soonest(ss, ss.len() as int);
            let k = batch_cycles(ss, required);
            forall|j: int|
                0 <= j < ss.len() && j != s ==> next_due(ss[s]) + (k - 1) * ss[s].duration
                    <= #[trigger] next_due(ss[j])
        }),
{
    let n = ss.len() as int;
    lemma_batch_progress(ss, required);
    lemma_soonest_is_first(ss, n);
    let s = soonest(ss, n);
    let k = batch_cycles(ss, required);
    let d1 = next_due(ss[s]);
    let dur = ss[s].duration;
    lemma_runner_up(ss, s, n);
    if runner_up_due(ss, s, n) is Some {
        let d2 = runner_up_due(ss, s, n)->0;
        let j0 = choose|j: int| 0 <= j < n && j != s && d2 == #[trigger] next_due(ss[j]);
        assert(d1 <= d2);
        assert(d1 + (k - 1) * dur <= d2) by {
            if d2 > d1 {
                let a = (d2 - d1 + dur - 1) as int;
                lemma_fundamental_div_mod(a, dur as int);
                let q = a / dur as int;
                let r = a % dur as int;
                assert(k <= q);
                assert((k - 1) * dur <= d2 - d1) by (nonlinear_arith)
                    requires
                        a == dur * q + r,
                        0 <= r < dur,
                        a == d2 - d1 + dur - 1,
                        1 <= k <= q,
                ;
            } else {
                assert(k == 1);
            }
        }
    }
}

/// The largest due time that a subsystem's counters can give:
/// `(2^64 - 1) * 2^64`.
pub open spec fn max_due() -> nat {
    0xFFFF_FFFF_FFFF_FFFF_0000_0000_0000_0000
}

/// Nanoseconds from `start` to `now`; zero where `now` is not later.
pub open spec fn required_nanos(start: nat, now: nat) -> nat {
    if now > start {
        (now - start) as nat
    } else {
        0
    }
}

/// Whether no progress can be made: some time has passed and a subsystem has
/// a zero cycle length, so that its cycles never stop falling due.
pub open spec fn stalled(ss: Seq<SystemModel>, required: nat) -> bool {
    required > 0 && exists|i: int| 0 <= i < ss.len() && (#[trigger] ss[i]).duration == 0
}

/// One scheduled subsystem: a name, a cycle length, and the cycles handed out so far.
#[derive(Clone, Copy)]
pub struct TimedSystem {
    name: &'static str,
    cycle_duration_nanos: u64,
    elapsed_cycles: u64,
}

/// A batch of work: run `cycles` cycles of the subsystem called `name`.
pub struct Instruction {
    pub name: &'static str,
    pub cycles: u64,
}

/// Whether the instructions `v` are the batches `bs` of subsystems named `names`.
pub open spec fn emits(v: Seq<Instruction>, names: Seq<&'static str>, bs: Seq<Batch>) -> bool {
    &&& v.len() == bs.len()
    &&& forall|j: int|
        0 <= j < v.len() ==> (#[trigger] v[j]).name == names[bs[j].system] && v[j].cycles
            == bs[j].cycles
}

impl TimedSystem {
    /// The subsystem's cycle length and handed-out cycles.
    pub closed spec fn model(&self) -> SystemModel {
        SystemModel {
            duration: self.cycle_duration_nanos as nat,
            elapsed: self.elapsed_cycles as nat,
        }
    }

    /// The subsystem's name.
    pub closed spec fn spec_name(&self) -> &'static str {
        self.name
    }

    /// A subsystem that runs `cycle_speed_hz` cycles a second, none handed out yet.
    pub fn new(name: &'static str, cycle_speed_hz: u64) -> (r: Self)
        requires
            cycle_speed_hz > 0,
        ensures
            r.spec_name() == name,
            r.model() == (SystemModel {
                duration: (1_000_000_000u64 / cycle_speed_hz) as nat,
                elapsed: 0,
            }),
    {
        TimedSystem { name, cycle_duration_nanos: 1_000_000_000 / cycle_speed_hz, elapsed_cycles: 0 }
    }

    /// When the next cycle that was not handed out is due, in nanoseconds.
    fn next_cycle_nanos(&self) -> (r: u128)
        ensures
            r == next_due(self.model()),
            r <= max_due(),
    {
        let d = self.cycle_duration_nanos as u128;
        let e = self.elapsed_cycles as u128 + 1;
        assert(d * e <= max_due()) by (nonlinear_arith)
            requires
                d <= 0xFFFF_FFFF_FFFF_FFFF,
                1 <= e <= 0x1_0000_0000_0000_0000,
        ;
        d * e
    }

    /// How many cycles can run before the next due time passes `target_nanos`.
    fn num_cycles_until(&self, target_nanos: u128) -> (r: u128)
        requires
            self.model().duration > 0,
            target_nanos <= max_due(),
        ensures
            r == cycles_until(self.model(), target_nanos as nat),
    {
        let next_nanos = self.next_cycle_nanos();
        if target_nanos <= next_nanos {
            return 1;
        }
        TimedSystem::divide_round_up(target_nanos - next_nanos, self.cycle_duration_nanos as u128)
    }

    /// `a / b`, rounded up.
    fn divide_round_up(a: u128, b: u128) -> (r: u128)
        requires
            b > 0,
            a + b <= u128::MAX,
        ensures
            r == (a + b - 1) / (b as int),
    {
        (a + b - 1) / b
    }
}

/// The scheduler: a start time and a fixed roster of subsystems.
pub struct Timing {
    start_time: u64,
    systems: Vec<TimedSystem>,
}

impl Timing {
    /// The start time, in nanoseconds.
    pub closed spec fn start(&self) -> nat {
        self.start_time as nat
    }

    /// The subsystems as values, in roster order.
    pub closed spec fn models(&self) -> Seq<SystemModel> {
        self.systems@.map_values(|t: TimedSystem| t.model())
    }

    /// The subsystems' names, in roster order.
    pub closed spec fn names(&self) -> Seq<&'static str> {
        self.systems@.map_values(|t: TimedSystem| t.spec_name())
    }

    /// A scheduler that starts at `current_time` nanoseconds with the roster `systems`.
    pub fn new(current_time: u64, systems: Vec<TimedSystem>) -> (r: Self)
        ensures
            r.start() == current_time,
            r.models() == systems@.map_values(|t: TimedSystem| t.model()),
            r.names() == systems@.map_values(|t: TimedSystem| t.spec_name()),
    {
        Timing { start_time: current_time, systems }
    }

    /// The index of the subsystem due soonest, the earliest in the roster among equals.
    fn soonest_index(&self) -> (r: usize)
        requires
            self.systems@.len() > 0,
        ensures
            r == soonest(self.models(), self.models().len() as int),
            r < self.systems@.len(),
    {
        let n = self.systems.len();
        let mut best: usize = 0;
        let mut best_due = self.systems[0].next_cycle_nanos();
        let mut j: usize = 1;
        while j < n
            invariant
                1 <= j <= n,
                n == self.systems@.len(),
                self.models().len() == n,
                best == soonest(self.models(), j as int),
                best < j,
                best_due == next_due(self.models()[best as int]),
            decreases n - j,
        {
            let d = self.systems[j].next_cycle_nanos();
            if d < best_due {
                best = j;
                best_due = d;
            }
            j += 1;
        }
        best
    }

    /// The size of the next batch, for the soonest subsystem `s`.
    fn batch_size(&self, s: usize, required: u64) -> (r: u64)
        requires
            has_pending(self.models(), required as nat),
            s == soonest(self.models(), self.models().len() as int),
            s < self.systems@.len(),
        ensures
            r == batch_cycles(self.models(), required as nat),
    {
        let ghost ss = self.models();
        let n = self.systems.len();
        let sys = self.systems[s];
        proof {
            lemma_pending_backlog(ss[s as int], required as nat);
        }
        let ticks: u64 = (required - 1) / sys.cycle_duration_nanos;
        let left: u64 = ticks - sys.elapsed_cycles;
        let mut found = false;
        let mut runner_up: u128 = 0;
        let mut j: usize = 0;
        while j < n
            invariant
                0 <= j <= n,
                n == self.systems@.len(),
                ss == self.models(),
                ss.len() == n,
                found == runner_up_due(ss, s as int, j as int) is Some,
                found ==> runner_up == runner_up_due(ss, s as int, j as int)->0,
                runner_up <= max_due(),
            decreases n - j,
        {
            if j != s {
                let d = self.systems[j].next_cycle_nanos();
                if !found || d < runner_up {
                    runner_up = d;
                }
                found = true;
            }
            j += 1;
        }
        if !found {
            return left;
        }
        let c = sys.num_cycles_until(runner_up);
        if c < left as u128 {
            c as u64
        } else {
            left
        }
    }

    /// The batches due by `current_time` nanoseconds, in order; hands their
    /// cycles out, so that a later call gives only what fell due since.
    /// Fails, changing nothing, where time has passed and a subsystem has a
    /// zero cycle length.
    pub fn get_instructions(&mut self, current_time: u64) -> (r: Result<Vec<Instruction>, ChipError>)
        ensures
            final(self).start() == old(self).start(),
            final(self).names() == old(self).names(),
            ({
                let required = required_nanos(old(self).start(), current_time as nat);
                &&& stalled(old(self).models(), required) ==> r == Err::<Vec<Instruction>, ChipError>(
                    ChipError::SchedulerStalled,
                ) && final(self).models() == old(self).models()
                &&& !stalled(old(self).models(), required) ==> r is Ok && final(self).models() == run(
                    old(self).models(),
                    required,
                ) && emits(r->Ok_0@, old(self).names(), schedule(old(self).models(), required))
            }),
    {
        let required: u64 = if current_time > self.start_time {
            current_time - self.start_time
        } else {
            0
        };
        assert(required as nat == required_nanos(self.start(), current_time as nat));
        let n = self.systems.len();
        if required > 0 {
            let mut j: usize = 0;
            while j < n
                invariant
                    0 <= j <= n,
                    n == self.systems@.len(),
                    required > 0,
                    self.start_time == old(self).start_time,
                    self.systems@ == old(self).systems@,
                    required as nat == required_nanos(old(self).start(), current_time as nat),
                    forall|i: int| 0 <= i < j ==> (#[trigger] self.models()[i]).duration > 0,
                decreases n - j,
            {
                if self.systems[j].cycle_duration_nanos == 0 {
                    assert(self.models()[j as int].duration == 0);
                    assert(stalled(self.models(), required as nat));
                    return Err(ChipError::SchedulerStalled);
                }
                j += 1;
            }
        }
        let ghost init = self.models();
        let ghost names = self.names();
        let ghost req = required as nat;
        let ghost mut done: Seq<Batch> = Seq::empty();
        let mut results: Vec<Instruction> = Vec::new();
        if n == 0 {
            return Ok(results);
        }
        loop
            invariant
                n == self.systems@.len(),
                n > 0,
                self.start_time == old(self).start_time,
                req == required_nanos(old(self).start(), current_time as nat),
                required as nat == req,
                init == old(self).models(),
                init.len() == n,
                names == old(self).names(),
                self.names() == names,
                self.models().len() == n,
                forall|i: int| 0 <= i < n ==> (#[trigger] self.models()[i]).duration == init[i].duration,
                required > 0 ==> forall|i: int| 0 <= i < n ==> (#[trigger] self.models()[i]).duration > 0,
                schedule(init, req) == done + schedule(self.models(), req),
                run(init, req) == run(self.models(), req),
                emits(results@, names, done),
            ensures
                !has_pending(self.models(), req),
                schedule(self.models(), req) == Seq::<Batch>::empty(),
                run(self.models(), req) == self.models(),
            decreases total_backlog(self.models(), req, n as int),
        {
            let ghost cur = self.models();
            let s = self.soonest_index();
            let due = self.systems[s].next_cycle_nanos();
            if due >= required as u128 {
                break;
            }
            proof {
                lemma_batch_progress(cur, req);
            }
            let k = self.batch_size(s, required);
            let ghost b = Batch { system: s as int, cycles: k as nat, first_due: next_due(cur[s as int]) };
            proof {
                assert(schedule(cur, req) == seq![b] + schedule(advance(cur, s as int, k as nat), req));
                assert(done.push(b) + schedule(advance(cur, s as int, k as nat), req) =~= done + (seq![b]
                    + schedule(advance(cur, s as int, k as nat), req)));
                lemma_pending_backlog(cur[s as int], required as nat);
                assert(ticks_before(cur[s as int].duration, req) <= req) by {
                    lemma_div_is_ordered_by_denominator((req - 1) as int, 1, cur[s as int].duration as int);
                }
            }
            results.push(Instruction { name: self.systems[s].name, cycles: k });
            let mut sys = self.systems[s];
            sys.elapsed_cycles = sys.elapsed_cycles + k;
            self.systems.set(s, sys);
            proof {
                done = done.push(b);
                assert(self.models() =~= advance(cur, s as int, k as nat));
                assert(self.names() =~= names);
            }
        }
        Ok(results)
    }
}

} // verus!
