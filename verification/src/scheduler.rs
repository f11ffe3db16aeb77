//! The sleep loop's state machine.
//!
//! Each cycle the loop looks at the interrupt latch and the elapsed
//! time, and decides whether to stop, and otherwise how long to sleep
//! before looking again. The decision is pure; the caller owns the
//! clock, the latch and the actual suspension.

use vstd::prelude::*;
use crate::duration::{Dur, duration_text, duration_as_str};
use vstd::string::StringExecFns;

verus! {

/// The fixed polling quantum, in milliseconds.
///
/// It bounds the latency between a signal arriving and the loop
/// noticing it, while keeping the loop far from busy-polling.
pub const QUANTUM_MILLIS: u64 = 100;

/// What the loop was asked to do.
#[derive(Clone, Copy, Debug, PartialEq, Eq, Structural)]
pub struct SleepConfig {
    /// The target duration; `None` means sleep forever.
    pub target: Option<Dur>,
    /// When set, a caught interrupt is announced, the latch is
    /// re-armed, and the sleep goes on.
    pub no_interrupt: bool,
}

/// A status message the loop emits, before verbosity filtering.
#[derive(Clone, Copy, Debug, PartialEq, Eq, Structural)]
pub enum Msg {
    /// An interrupt arrived but the configuration says to ignore it.
    Ignoring,
    /// An interrupt arrived and ends the sleep early.
    Interrupted,
    /// One polling cycle passed; reports time slept so far.
    Progress { elapsed: u64 },
    /// The loop is over; reports the total time slept.
    Woke { elapsed: u64 },
}

/// The text of a loop message, exactly as it is reported.
pub open spec fn spec_msg_text(m: Msg) -> Seq<char> {
    match m {
        Msg::Ignoring => "Ignoring termination signal."@,
        Msg::Interrupted => "Caught termination signal - interrupting sleep."@,
        Msg::Progress { elapsed } => "Still dreaming after "@ + duration_text(elapsed),
        Msg::Woke { elapsed } => "Woke up after "@ + duration_text(elapsed),
    }
}

impl Msg {
    /// Writes the message out, durations rendered as seconds with
    /// three fraction places.
    pub fn text(&self) -> (r: String)
        ensures
            r@ == spec_msg_text(*self),
    {
        match self {
            Msg::Ignoring => String::from_str("Ignoring termination signal."),
            Msg::Interrupted => String::from_str("Caught termination signal - interrupting sleep."),
            Msg::Progress { elapsed } => {
                let d = duration_as_str(&Dur::from_millis(*elapsed));
                String::from_str("Still dreaming after ").concat(d.as_str())
            },
            Msg::Woke { elapsed } => {
                let d = duration_as_str(&Dur::from_millis(*elapsed));
                String::from_str("Woke up after ").concat(d.as_str())
            },
        }
    }
}

/// The text announcing what the loop is about to do.
pub open spec fn spec_start_text(target: Option<Dur>) -> Seq<char> {
    match target {
        Option::None => "Going to sleep forever"@,
        Option::Some(d) => "Going to sleep for "@ + duration_text(d.millis),
    }
}

/// Writes the announcement made before the loop starts.
pub fn start_message(target: &Option<Dur>) -> (r: String)
    ensures
        r@ == spec_start_text(*target),
{
    match target {
        None => String::from_str("Going to sleep forever"),
        Some(d) => {
            let t = duration_as_str(d);
            String::from_str("Going to sleep for ").concat(t.as_str())
        },
    }
}

/// What one cycle decided to do next.
#[derive(Clone, Copy, Debug, PartialEq, Eq, Structural)]
pub enum CycleStep {
    /// Leave the loop. `interrupted` tells a signal ended it early.
    Finish { interrupted: bool },
    /// Suspend for `slice` milliseconds, then look again.
    Sleep { slice: u64 },
}

/// The full outcome of one cycle.
#[derive(Clone, Copy, Debug, PartialEq, Eq, Structural)]
pub struct CycleOutcome {
    /// An interrupt was caught and ignored this cycle: the caller
    /// must announce it and reset the latch to "running".
    pub ignored_interrupt: bool,
    /// What to do next.
    pub step: CycleStep,
}

/// One cycle of the loop, given the time elapsed since the sleep
/// began and whether the interrupt latch is set.
///
/// The order of decisions: an unignored interrupt wins over
/// everything, even a target already reached; then a reached target
/// ends the loop; then the next slice is the quantum, clamped so a
/// finite target is never overshot.
pub open spec fn spec_cycle(cfg: SleepConfig, elapsed: u64, interrupted: bool) -> CycleOutcome {
    let ignored = interrupted && cfg.no_interrupt;
    if interrupted && !cfg.no_interrupt {
        CycleOutcome { ignored_interrupt: false, step: CycleStep::Finish { interrupted: true } }
    } else {
        match cfg.target {
            Option::None => CycleOutcome {
                ignored_interrupt: ignored,
                step: CycleStep::Sleep { slice: QUANTUM_MILLIS },
            },
            Option::Some(t) => {
                if elapsed >= t.millis {
                    CycleOutcome {
                        ignored_interrupt: ignored,
                        step: CycleStep::Finish { interrupted: false },
                    }
                } else if t.millis - elapsed < QUANTUM_MILLIS {
                    CycleOutcome {
                        ignored_interrupt: ignored,
                        step: CycleStep::Sleep { slice: (t.millis - elapsed) as u64 },
                    }
                } else {
                    CycleOutcome {
                        ignored_interrupt: ignored,
                        step: CycleStep::Sleep { slice: QUANTUM_MILLIS },
                    }
                }
            },
        }
    }
}

/// Decides one cycle of the sleep loop.
///
/// Beyond following `spec_cycle` exactly, the outcome promises: the
/// loop only ends for a reached target or an unignored interrupt; a
/// slice is never zero, never above the quantum, and never overshoots
/// a finite target.
pub fn cycle(cfg: SleepConfig, elapsed: u64, interrupted: bool) -> (r: CycleOutcome)
    ensures
        r == spec_cycle(cfg, elapsed, interrupted),
        r.ignored_interrupt == (interrupted && cfg.no_interrupt),
        (r.step == CycleStep::Finish { interrupted: true }) == (interrupted && !cfg.no_interrupt),
        (r.step == CycleStep::Finish { interrupted: false }) == ((!interrupted || cfg.no_interrupt)
            && (cfg.target matches Some(t) && elapsed >= t.millis)),
        cfg.target is None && (!interrupted || cfg.no_interrupt) ==> r.step == (CycleStep::Sleep {
            slice: QUANTUM_MILLIS,
        }),
        r.step matches CycleStep::Sleep { slice } ==> 0 < slice <= QUANTUM_MILLIS,
        r.step matches CycleStep::Sleep { slice } ==> (cfg.target matches Some(t) ==> elapsed
            + slice <= t.millis),
{
    let ignored = interrupted && cfg.no_interrupt;
    if interrupted && !cfg.no_interrupt {
        return CycleOutcome {
            ignored_interrupt: false,
            step: CycleStep::Finish { interrupted: true },
        };
    }
    match cfg.target {
        None => CycleOutcome { ignored_interrupt: ignored, step: CycleStep::Sleep { slice: QUANTUM_MILLIS } },
        Some(t) => {
            if elapsed >= t.millis {
                CycleOutcome { ignored_interrupt: ignored, step: CycleStep::Finish { interrupted: false } }
            } else if t.millis - elapsed < QUANTUM_MILLIS {
                CycleOutcome {
                    ignored_interrupt: ignored,
                    step: CycleStep::Sleep { slice: t.millis - elapsed },
                }
            } else {
                CycleOutcome { ignored_interrupt: ignored, step: CycleStep::Sleep { slice: QUANTUM_MILLIS } }
            }
        },
    }
}

/// The observable state of a sleep loop, for reasoning: how long it
/// has slept, whether an interrupt is pending, every message emitted
/// so far, and — once it has exited — whether a signal ended it.
pub struct LoopModel {
    /// Milliseconds slept so far.
    pub elapsed: u64,
    /// True while a caught signal has not been acted on yet.
    pub latch: bool,
    /// All messages emitted so far, oldest first.
    pub msgs: Seq<Msg>,
    /// `None` while the loop runs; `Some(interrupted)` once it exited.
    pub outcome: Option<bool>,
}

/// The state a sleep loop starts in.
pub open spec fn init_model() -> LoopModel {
    LoopModel { elapsed: 0, latch: false, msgs: Seq::empty(), outcome: Option::None }
}

/// One cycle of the loop: `signal` tells whether an interrupt arrived
/// since the last cycle looked. A finished loop no longer moves.
pub open spec fn step_model(cfg: SleepConfig, m: LoopModel, signal: bool) -> LoopModel {
    if m.outcome is Some {
        m
    } else {
        let latch = m.latch || signal;
        let out = spec_cycle(cfg, m.elapsed, latch);
        let latch2 = if out.ignored_interrupt { false } else { latch };
        let msgs2 = if out.ignored_interrupt { m.msgs.push(Msg::Ignoring) } else { m.msgs };
        match out.step {
            CycleStep::Finish { interrupted } => {
                let msgs3 = if interrupted { msgs2.push(Msg::Interrupted) } else { msgs2 };
                LoopModel {
                    elapsed: m.elapsed,
                    latch: latch2,
                    msgs: msgs3.push(Msg::Woke { elapsed: m.elapsed }),
                    outcome: Option::Some(interrupted),
                }
            },
            CycleStep::Sleep { slice } => {
                let e2 = if m.elapsed + slice <= u64::MAX { (m.elapsed + slice) as u64 } else { u64::MAX };
                LoopModel {
                    elapsed: e2,
                    latch: latch2,
                    msgs: msgs2.push(Msg::Progress { elapsed: m.elapsed }),
                    outcome: Option::None,
                }
            },
        }
    }
}

/// The loop run cycle by cycle over a window of signal observations:
/// `signals[i]` tells whether an interrupt arrived before cycle `i`
/// looked at the latch. The run stops early once the loop exits.
pub open spec fn run_model(cfg: SleepConfig, m: LoopModel, signals: Seq<bool>) -> LoopModel
    decreases signals.len(),
{
    if signals.len() == 0 || m.outcome is Some {
        m
    } else {
        run_model(cfg, step_model(cfg, m, signals[0]), signals.drop_first())
    }
}

/// A finished loop stays put, whatever else the window holds.
pub proof fn lemma_run_model_finished(cfg: SleepConfig, m: LoopModel, signals: Seq<bool>)
    requires
        m.outcome is Some,
    ensures
        run_model(cfg, m, signals) == m,
{
}

/// Running over a window and then one more observation is one more
/// step after running over the window.
pub proof fn lemma_run_model_push(cfg: SleepConfig, m: LoopModel, signals: Seq<bool>, signal: bool)
    ensures
        run_model(cfg, m, signals.push(signal)) == step_model(cfg, run_model(cfg, m, signals), signal),
    decreases signals.len(),
{
    if m.outcome is Some {
        lemma_run_model_finished(cfg, m, signals.push(signal));
        lemma_run_model_finished(cfg, m, signals);
    } else if signals.len() == 0 {
        assert(signals.push(signal)[0] == signal);
        assert(signals.push(signal).drop_first() =~= Seq::<bool>::empty());
        assert(run_model(cfg, m, signals.push(signal)) == run_model(
            cfg,
            step_model(cfg, m, signal),
            Seq::<bool>::empty(),
        ));
    } else {
        assert(signals.push(signal)[0] == signals[0]);
        assert(signals.push(signal).drop_first() =~= signals.drop_first().push(signal));
        lemma_run_model_push(cfg, step_model(cfg, m, signals[0]), signals.drop_first(), signal);
    }
}

/// Running over one window after another is running over the two
/// joined.
pub proof fn lemma_run_model_concat(cfg: SleepConfig, m: LoopModel, a: Seq<bool>, b: Seq<bool>)
    ensures
        run_model(cfg, m, a + b) == run_model(cfg, run_model(cfg, m, a), b),
    decreases a.len(),
{
    if m.outcome is Some {
        lemma_run_model_finished(cfg, m, a + b);
        lemma_run_model_finished(cfg, m, a);
        lemma_run_model_finished(cfg, run_model(cfg, m, a), b);
    } else if a.len() == 0 {
        assert(a + b =~= b);
    } else {
        assert((a + b).drop_first() =~= a.drop_first() + b);
        lemma_run_model_concat(cfg, step_model(cfg, m, a[0]), a.drop_first(), b);
    }
}

/// No interrupt arrives anywhere in the window.
pub open spec fn all_clear(signals: Seq<bool>) -> bool {
    forall|i: int| 0 <= i < signals.len() ==> !signals[i]
}

/// How many `Woke` messages a message trail holds.
pub open spec fn woke_count(msgs: Seq<Msg>) -> int
    decreases msgs.len(),
{
    if msgs.len() == 0 {
        0
    } else {
        woke_count(msgs.drop_last()) + if msgs.last() is Woke { 1int } else { 0int }
    }
}

/// How many `Ignoring` messages a message trail holds.
pub open spec fn ignoring_count(msgs: Seq<Msg>) -> int
    decreases msgs.len(),
{
    if msgs.len() == 0 {
        0
    } else {
        ignoring_count(msgs.drop_last()) + if msgs.last() is Ignoring { 1int } else { 0int }
    }
}

/// How many cycles an undisturbed loop still needs before it exits,
/// with `rem` milliseconds left to the target: one finishing look,
/// preceded by one sleep per started quantum.
pub open spec fn cycles_needed(rem: int) -> int
    decreases rem,
{
    if rem <= 0 {
        1
    } else if rem < QUANTUM_MILLIS {
        2
    } else {
        1 + cycles_needed(rem - QUANTUM_MILLIS)
    }
}

pub proof fn lemma_cycles_needed_pos(rem: int)
    ensures
        cycles_needed(rem) >= 1,
    decreases rem,
{
    if rem >= QUANTUM_MILLIS {
        lemma_cycles_needed_pos(rem - QUANTUM_MILLIS);
    }
}

/// Messages past position `p` that are all progress reports change
/// no other message's count.
proof fn lemma_counts_past_progress(msgs: Seq<Msg>, p: int)
    requires
        0 <= p <= msgs.len(),
        forall|j: int| p <= j < msgs.len() ==> msgs[j] is Progress,
    ensures
        woke_count(msgs) == woke_count(msgs.take(p)),
        ignoring_count(msgs) == ignoring_count(msgs.take(p)),
    decreases msgs.len() - p,
{
    if p == msgs.len() {
        assert(msgs.take(p) =~= msgs);
    } else {
        assert(msgs.drop_last().take(p) =~= msgs.take(p));
        lemma_counts_past_progress(msgs.drop_last(), p);
    }
}

/// From a quiet mid-loop state with the target not yet reached and a
/// window of enough undisturbed observations, the loop sleeps on to
/// exactly the target and exits normally, emitting only progress
/// reports and one final `Woke`.
pub proof fn lemma_clear_run_completes(cfg: SleepConfig, m: LoopModel, signals: Seq<bool>)
    requires
        cfg.target matches Some(t),
        m.outcome is None,
        !m.latch,
        m.elapsed <= cfg.target.unwrap().millis,
        all_clear(signals),
        signals.len() >= cycles_needed(cfg.target.unwrap().millis - m.elapsed),
    ensures
        ({
            let t = cfg.target.unwrap().millis;
            let fin = run_model(cfg, m, signals);
            &&& fin.outcome == Some(false)
            &&& fin.elapsed == t
            &&& fin.msgs.len() > m.msgs.len()
            &&& fin.msgs.take(m.msgs.len() as int) == m.msgs
            &&& fin.msgs.last() == (Msg::Woke { elapsed: t })
            &&& forall|j: int|
                m.msgs.len() <= j < fin.msgs.len() - 1 ==> fin.msgs[j] is Progress
        }),
    decreases cfg.target.unwrap().millis - m.elapsed,
{
    let t = cfg.target.unwrap().millis;
    lemma_cycles_needed_pos(t - m.elapsed);
    let m1 = step_model(cfg, m, signals[0]);
    let rest = signals.drop_first();
    assert(!signals[0]);
    if m.elapsed >= t {
        assert(m1.msgs =~= m.msgs.push(Msg::Woke { elapsed: t }));
        assert(m1.msgs.take(m.msgs.len() as int) =~= m.msgs);
        lemma_run_model_finished(cfg, m1, rest);
    } else {
        let fin = run_model(cfg, m, signals);
        lemma_clear_run_completes(cfg, m1, rest);
        assert(m1.msgs.take(m.msgs.len() as int) =~= m.msgs);
        assert(fin.msgs.take(m.msgs.len() as int) =~= m.msgs) by {
            assert(fin.msgs.take(m1.msgs.len() as int) == m1.msgs);
            assert(forall|j: int|
                0 <= j < m.msgs.len() ==> fin.msgs[j] == m1.msgs[j] && m1.msgs[j] == m.msgs[j]);
        }
        assert(forall|j: int| m.msgs.len() <= j < fin.msgs.len() - 1 ==> fin.msgs[j] is Progress)
            by {
            assert(fin.msgs[m.msgs.len() as int] == m1.msgs[m.msgs.len() as int]);
            assert(m1.msgs[m.msgs.len() as int] is Progress);
        }
    }
}

/// With a finite target and the latch never set, the loop
/// exits normally with elapsed time exactly the target, and its
/// trail is progress reports closed by exactly one `Woke`.
pub proof fn lemma_sleep_completes(cfg: SleepConfig, signals: Seq<bool>)
    requires
        cfg.target matches Some(t),
        all_clear(signals),
        signals.len() >= cycles_needed(cfg.target.unwrap().millis as int),
    ensures
        ({
            let t = cfg.target.unwrap().millis;
            let fin = run_model(cfg, init_model(), signals);
            &&& fin.outcome == Some(false)
            &&& fin.elapsed == t
            &&& fin.msgs.last() == (Msg::Woke { elapsed: t })
            &&& woke_count(fin.msgs) == 1
            &&& ignoring_count(fin.msgs) == 0
            &&& forall|j: int| 0 <= j < fin.msgs.len() - 1 ==> fin.msgs[j] is Progress
        }),
{
    let t = cfg.target.unwrap().millis;
    let fin = run_model(cfg, init_model(), signals);
    lemma_clear_run_completes(cfg, init_model(), signals);
    let front = fin.msgs.drop_last();
    assert(front.take(0) =~= Seq::<Msg>::empty());
    lemma_counts_past_progress(front, 0);
}

/// While no signal arrives and a finite target is at least a quantum
/// away (or there is none), each cycle sleeps one full quantum: after
/// `n` undisturbed cycles the loop is still asleep at exactly
/// `n` quanta, with one progress report per cycle.
pub proof fn lemma_clear_prefix(cfg: SleepConfig, signals: Seq<bool>, n: int)
    requires
        0 <= n <= signals.len(),
        forall|j: int| 0 <= j < n ==> !signals[j],
        cfg.target matches Some(t) ==> QUANTUM_MILLIS * n <= t.millis,
        cfg.target is None ==> QUANTUM_MILLIS * n <= u64::MAX,
    ensures
        ({
            let mid = run_model(cfg, init_model(), signals.take(n));
            &&& mid.outcome is None
            &&& mid.elapsed == QUANTUM_MILLIS * n
            &&& !mid.latch
            &&& mid.msgs.len() == n
            &&& forall|j: int|
                0 <= j < n ==> mid.msgs[j] == (Msg::Progress { elapsed: (QUANTUM_MILLIS * j) as u64 })
        }),
    decreases n,
{
    if n == 0 {
        assert(signals.take(0) =~= Seq::<bool>::empty());
    } else {
        lemma_clear_prefix(cfg, signals, n - 1);
        assert(signals.take(n) =~= signals.take(n - 1).push(signals[n - 1]));
        lemma_run_model_push(cfg, init_model(), signals.take(n - 1), signals[n - 1]);
        assert(QUANTUM_MILLIS * (n - 1) + QUANTUM_MILLIS == QUANTUM_MILLIS * n) by (nonlinear_arith);
        assert(QUANTUM_MILLIS * (n - 1) <= QUANTUM_MILLIS * n) by (nonlinear_arith);
    }
}

/// With a finite target, the latch set for the first time at
/// cycle `k` while the target is still ahead, and interrupts not
/// ignored, the loop exits early: before the target, right at that
/// cycle, announcing the interruption and then exactly one `Woke`.
pub proof fn lemma_interrupt_ends_early(cfg: SleepConfig, signals: Seq<bool>, k: int)
    requires
        !cfg.no_interrupt,
        cfg.target matches Some(t),
        0 <= k < signals.len(),
        signals[k],
        forall|j: int| 0 <= j < k ==> !signals[j],
        QUANTUM_MILLIS * k < cfg.target.unwrap().millis,
    ensures
        ({
            let t = cfg.target.unwrap().millis;
            let fin = run_model(cfg, init_model(), signals);
            &&& fin.outcome == Some(true)
            &&& fin.elapsed == QUANTUM_MILLIS * k
            &&& fin.elapsed < t
            &&& fin.msgs.len() == k + 2
            &&& fin.msgs[k] == Msg::Interrupted
            &&& fin.msgs[k + 1] == (Msg::Woke { elapsed: (QUANTUM_MILLIS * k) as u64 })
            &&& forall|j: int| 0 <= j < k ==> fin.msgs[j] is Progress
        }),
{
    lemma_clear_prefix(cfg, signals, k);
    let mid = run_model(cfg, init_model(), signals.take(k));
    assert(signals.take(k + 1) =~= signals.take(k).push(signals[k]));
    lemma_run_model_push(cfg, init_model(), signals.take(k), signals[k]);
    let m1 = step_model(cfg, mid, true);
    assert(signals =~= signals.take(k + 1) + signals.skip(k + 1));
    lemma_run_model_concat(cfg, init_model(), signals.take(k + 1), signals.skip(k + 1));
    lemma_run_model_finished(cfg, m1, signals.skip(k + 1));
}

/// With no target at all, one interrupt delivered at cycle `k`
/// still ends the loop, at exactly that cycle.
pub proof fn lemma_forever_interrupt_ends(cfg: SleepConfig, signals: Seq<bool>, k: int)
    requires
        !cfg.no_interrupt,
        cfg.target is None,
        0 <= k < signals.len(),
        signals[k],
        forall|j: int| 0 <= j < k ==> !signals[j],
        QUANTUM_MILLIS * k <= u64::MAX,
    ensures
        ({
            let fin = run_model(cfg, init_model(), signals);
            &&& fin.outcome == Some(true)
            &&& fin.elapsed == QUANTUM_MILLIS * k
            &&& fin.msgs.len() == k + 2
            &&& fin.msgs[k] == Msg::Interrupted
            &&& fin.msgs[k + 1] == (Msg::Woke { elapsed: (QUANTUM_MILLIS * k) as u64 })
            &&& forall|j: int| 0 <= j < k ==> fin.msgs[j] is Progress
        }),
{
    lemma_clear_prefix(cfg, signals, k);
    let mid = run_model(cfg, init_model(), signals.take(k));
    assert(signals.take(k + 1) =~= signals.take(k).push(signals[k]));
    lemma_run_model_push(cfg, init_model(), signals.take(k), signals[k]);
    let m1 = step_model(cfg, mid, true);
    assert(signals =~= signals.take(k + 1) + signals.skip(k + 1));
    lemma_run_model_concat(cfg, init_model(), signals.take(k + 1), signals.skip(k + 1));
    lemma_run_model_finished(cfg, m1, signals.skip(k + 1));
}

/// With interrupts ignored, a single signal delivered at
/// cycle `k` does not end the sleep: the loop announces once that it
/// is ignoring the signal and still runs to exactly the target.
pub proof fn lemma_ignored_interrupt_completes(cfg: SleepConfig, signals: Seq<bool>, k: int)
    requires
        cfg.no_interrupt,
        cfg.target matches Some(t),
        0 <= k < signals.len(),
        signals[k],
        forall|j: int| 0 <= j < signals.len() && j != k ==> !signals[j],
        QUANTUM_MILLIS * k < cfg.target.unwrap().millis,
        signals.len() >= k + cycles_needed(cfg.target.unwrap().millis - QUANTUM_MILLIS * k),
    ensures
        ({
            let t = cfg.target.unwrap().millis;
            let fin = run_model(cfg, init_model(), signals);
            &&& fin.outcome == Some(false)
            &&& fin.elapsed == t
            &&& fin.msgs.last() == (Msg::Woke { elapsed: t })
            &&& ignoring_count(fin.msgs) == 1
            &&& woke_count(fin.msgs) == 1
        }),
{
    let t = cfg.target.unwrap().millis;
    lemma_clear_prefix(cfg, signals, k);
    let mid = run_model(cfg, init_model(), signals.take(k));
    assert(signals.take(k + 1) =~= signals.take(k).push(signals[k]));
    lemma_run_model_push(cfg, init_model(), signals.take(k), signals[k]);
    let m1 = step_model(cfg, mid, true);
    assert(m1.outcome is None);
    assert(!m1.latch);
    assert(m1.msgs.len() == k + 2);
    let rest = signals.skip(k + 1);
    assert(all_clear(rest)) by {
        assert(forall|j: int|
            0 <= j < rest.len() ==> rest[j] == signals[j + k + 1] && !signals[j + k + 1]);
    }
    assert(rest.len() >= cycles_needed(t - m1.elapsed));
    lemma_clear_run_completes(cfg, m1, rest);
    assert(signals =~= signals.take(k + 1) + rest);
    lemma_run_model_concat(cfg, init_model(), signals.take(k + 1), rest);
    let fin = run_model(cfg, init_model(), signals);
    // Counting: everything after the one Ignoring message is either a
    // progress report or the closing Woke.
    let front = fin.msgs.drop_last();
    let p = m1.msgs.len() as int;
    assert(front.take(p) =~= m1.msgs) by {
        assert(fin.msgs.take(p) == m1.msgs);
        assert(forall|j: int| 0 <= j < p ==> front[j] == fin.msgs[j]);
    }
    assert(forall|j: int| p <= j < front.len() ==> front[j] is Progress) by {
        assert(forall|j: int|
            p <= j < front.len() ==> front[j] == fin.msgs[j] && fin.msgs[j] is Progress);
    }
    lemma_counts_past_progress(front, p);
    let with_ignoring = mid.msgs.push(Msg::Ignoring);
    assert(m1.msgs.drop_last() =~= with_ignoring);
    assert(with_ignoring.drop_last() =~= mid.msgs);
    assert(m1.msgs.last() is Progress);
    assert(mid.msgs.take(0) =~= Seq::<Msg>::empty());
    lemma_counts_past_progress(mid.msgs, 0);
    assert(woke_count(m1.msgs) == woke_count(with_ignoring));
    assert(ignoring_count(m1.msgs) == ignoring_count(with_ignoring));
    assert(woke_count(m1.msgs) == 0);
    assert(ignoring_count(m1.msgs) == 1);
    assert(fin.msgs.len() > 0 && fin.msgs.last() is Woke);
    assert(woke_count(fin.msgs) == woke_count(front) + 1);
    assert(ignoring_count(fin.msgs) == ignoring_count(front));
}

/// What a simulated run reports once its window of observations is
/// spent or the loop has exited.
#[derive(Debug, PartialEq, Eq)]
pub struct RunResult {
    /// True when the loop exited within the window.
    pub finished: bool,
    /// True when a signal ended the loop early; false otherwise,
    /// also while the loop is still asleep.
    pub interrupted: bool,
    /// Milliseconds slept within the window.
    pub elapsed: u64,
    /// Every message the loop emitted, oldest first.
    pub msgs: Vec<Msg>,
}

/// Runs the sleep loop against a fixed window of signal observations
/// instead of a clock and a latch: cycle `i` sees an interrupt
/// exactly when `signals[i]` is set or an earlier signal is still
/// pending, and every sleep is taken to last exactly its slice.
///
/// The result is precisely what `run_model` says of the same window.
pub fn run_loop(cfg: SleepConfig, signals: &Vec<bool>) -> (r: RunResult)
    ensures
        ({
            let fin = run_model(cfg, init_model(), signals@);
            &&& r.finished == (fin.outcome is Some)
            &&& (r.finished ==> fin.outcome == Some(r.interrupted))
            &&& (!r.finished ==> !r.interrupted)
            &&& r.elapsed == fin.elapsed
            &&& r.msgs@ == fin.msgs
        }),
{
    let mut elapsed: u64 = 0;
    let mut latch: bool = false;
    let mut msgs: Vec<Msg> = Vec::new();
    let mut i: usize = 0;
    while i < signals.len()
        invariant
            i <= signals.len(),
            ({
                let cur = run_model(cfg, init_model(), signals@.take(i as int));
                &&& cur.outcome is None
                &&& cur.elapsed == elapsed
                &&& cur.latch == latch
                &&& cur.msgs == msgs@
            }),
        decreases signals.len() - i,
    {
        let ghost pre = run_model(cfg, init_model(), signals@.take(i as int));
        let signal = signals[i];
        proof {
            assert(signals@.take(i + 1 as int) =~= signals@.take(i as int).push(signal));
            lemma_run_model_push(cfg, init_model(), signals@.take(i as int), signal);
        }
        let latch1 = latch || signal;
        let out = cycle(cfg, elapsed, latch1);
        if out.ignored_interrupt {
            msgs.push(Msg::Ignoring);
            latch = false;
        } else {
            latch = latch1;
        }
        match out.step {
            CycleStep::Finish { interrupted } => {
                if interrupted {
                    msgs.push(Msg::Interrupted);
                }
                msgs.push(Msg::Woke { elapsed });
                proof {
                    assert(signals@ =~= signals@.take(i + 1 as int) + signals@.skip(i + 1 as int));
                    lemma_run_model_concat(
                        cfg,
                        init_model(),
                        signals@.take(i + 1 as int),
                        signals@.skip(i + 1 as int),
                    );
                    lemma_run_model_finished(
                        cfg,
                        run_model(cfg, init_model(), signals@.take(i + 1 as int)),
                        signals@.skip(i + 1 as int),
                    );
                }
                return RunResult { finished: true, interrupted, elapsed, msgs };
            },
            CycleStep::Sleep { slice } => {
                msgs.push(Msg::Progress { elapsed });
                elapsed = elapsed.saturating_add(slice);
                i = i + 1;
            },
        }
    }
    proof {
        assert(signals@.take(signals@.len() as int) =~= signals@);
    }
    RunResult { finished: false, interrupted: false, elapsed, msgs }
}

} // verus!
