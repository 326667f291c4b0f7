//! The shared counter: units that each add a delta to one counter under a
//! lock, and a launcher that reads the total once all have finished. What a
//! unit does while it holds the lock is a method on `&mut IncrementRun`, so
//! no two of them overlap; the order in which units come is the scheduler's,
//! and the total does not depend on it.

use vstd::prelude::*;

verus! {

/// What each unit adds to the shared counter.
#[derive(Clone, Copy, Debug, PartialEq, Eq, Structural)]
pub enum Delta {
    /// Every unit adds one.
    One,
    /// Unit `i` adds `i`.
    UnitIndex,
}

/// Why a step of a run was refused.
#[derive(Clone, Copy, Debug, PartialEq, Eq, Structural)]
pub enum CounterError {
    /// A unit failed while it held the lock: the counter can no longer be trusted.
    LockPoisoned,
    /// The unit is not one of the units of this run.
    UnknownUnit,
    /// The unit has already added its delta.
    UnitRepeated,
    /// The total was asked for before every unit had added its delta.
    UnitsMissing,
}

/// The delta that `unit` adds under `rule`.
pub open spec fn delta_of(rule: Delta, unit: nat) -> nat {
    match rule {
        Delta::One => 1,
        Delta::UnitIndex => unit,
    }
}

/// The delta that `unit` adds under `rule`.
pub fn unit_delta(rule: Delta, unit: usize) -> (d: usize)
    ensures
        d == delta_of(rule, unit as nat),
{
    match rule {
        Delta::One => 1,
        Delta::UnitIndex => unit,
    }
}

/// The sum of the deltas of all units below `n`.
pub open spec fn sum_of_deltas(rule: Delta, n: nat) -> nat
    decreases n,
{
    if n == 0 {
        0
    } else {
        sum_of_deltas(rule, (n - 1) as nat) + delta_of(rule, (n - 1) as nat)
    }
}

/// Under `Delta::One` the deltas of `n` units sum to `n`; under
/// `Delta::UnitIndex` they sum to `n * (n - 1) / 2`.
pub proof fn lemma_sum_of_deltas_closed_form(rule: Delta, n: nat)
    ensures
        rule == Delta::One ==> sum_of_deltas(rule, n) == n,
        rule == Delta::UnitIndex ==> 2 * sum_of_deltas(rule, n) == n * (n - 1),
    decreases n,
{
    if n > 0 {
        let m = (n - 1) as nat;
        lemma_sum_of_deltas_closed_form(rule, m);
        assert(n * (n - 1) == m * (m - 1) + 2 * m) by (nonlinear_arith)
            requires
                n == m + 1,
        ;
    } else {
        assert(n * (n - 1) == 0) by (nonlinear_arith)
            requires
                n == 0,
        ;
    }
}

/// What a run looks like from outside.
pub struct RunState {
    /// What each unit adds.
    pub rule: Delta,
    /// For each unit, whether it has added its delta.
    pub done: Seq<bool>,
    /// Whether a unit failed while it held the lock.
    pub poisoned: bool,
}

impl RunState {
    /// The number of units of the run.
    pub open spec fn units(self) -> nat {
        self.done.len()
    }

    /// The sum of the deltas added so far.
    pub open spec fn total(self) -> nat {
        applied_sum(self.rule, self.done, self.done.len())
    }

    /// Whether every unit has added its delta.
    pub open spec fn complete(self) -> bool {
        forall|i: int| 0 <= i < self.done.len() ==> self.done[i]
    }
}

/// The state that the units of one run share under a lock: the counter, and
/// which units have added to it.
pub struct IncrementRun {
    rule: Delta,
    done: Vec<bool>,
    entered: usize,
    total: u128,
    poisoned: bool,
}

impl View for IncrementRun {
    type V = RunState;

    closed spec fn view(&self) -> RunState {
        RunState { rule: self.rule, done: self.done@, poisoned: self.poisoned }
    }
}

impl IncrementRun {
    /// The counter holds the sum of the deltas of the units that are marked.
    pub closed spec fn wf(&self) -> bool {
        &&& self.total == applied_sum(self.rule, self.done@, self.done@.len())
        &&& self.entered == count_done(self.done@, self.done@.len())
    }

    /// A run of `n` units, none of which has added its delta yet.
    pub fn new(n: usize, rule: Delta) -> (run: IncrementRun)
        ensures
            run.wf(),
            run@.rule == rule,
            run@.done == Seq::new(n as nat, |i: int| false),
            !run@.poisoned,
    {
        let mut done: Vec<bool> = Vec::new();
        while done.len() < n
            invariant
                done.len() <= n,
                done@ == Seq::new(done.len() as nat, |i: int| false),
                applied_sum(rule, done@, done@.len()) == 0,
                count_done(done@, done@.len()) == 0,
            decreases n - done.len(),
        {
            done.push(false);
            proof {
                lemma_unmarked(rule, done@, done@.len());
            }
        }
        IncrementRun { rule, done, entered: 0, total: 0, poisoned: false }
    }

    /// The critical section of `unit`: it adds its delta to the counter.
    pub fn unit_enters(&mut self, unit: usize) -> (r: Result<(), CounterError>)
        requires
            old(self).wf(),
        ensures
            final(self).wf(),
            old(self)@.poisoned ==> r == Err::<(), CounterError>(CounterError::LockPoisoned),
            !old(self)@.poisoned && unit >= old(self)@.units() ==> r == Err::<(), CounterError>(
                CounterError::UnknownUnit,
            ),
            !old(self)@.poisoned && unit < old(self)@.units() && old(self)@.done[unit as int] ==> r
                == Err::<(), CounterError>(CounterError::UnitRepeated),
            !old(self)@.poisoned && unit < old(self)@.units() && !old(self)@.done[unit as int]
                ==> r.is_ok(),
            r.is_ok() ==> final(self)@ == (RunState {
                done: old(self)@.done.update(unit as int, true),
                ..old(self)@
            }),
            r.is_ok() ==> final(self)@.total() == old(self)@.total() + delta_of(
                old(self)@.rule,
                unit as nat,
            ),
            r.is_err() ==> final(self)@ == old(self)@,
    {
        if self.poisoned {
            return Err(CounterError::LockPoisoned);
        }
        if unit >= self.done.len() {
            return Err(CounterError::UnknownUnit);
        }
        if self.done[unit] {
            return Err(CounterError::UnitRepeated);
        }
        let delta = unit_delta(self.rule, unit);
        proof {
            let n = self.done@.len();
            lemma_mark(self.rule, self.done@, unit as int, n);
            lemma_applied_sum_bound(self.rule, self.done@.update(unit as int, true), n, n);
            lemma_count_done_bound(self.done@.update(unit as int, true), n);
            assert(n * n <= 0xffff_ffff_ffff_ffff * 0xffff_ffff_ffff_ffff) by (nonlinear_arith)
                requires
                    n <= 0xffff_ffff_ffff_ffff,
            ;
        }
        self.done.set(unit, true);
        self.entered = self.entered + 1;
        self.total = self.total + delta as u128;
        Ok(())
    }

    /// Records that a unit failed while it held the lock.
    pub fn poison(&mut self)
        requires
            old(self).wf(),
        ensures
            final(self).wf(),
            final(self)@ == (RunState { poisoned: true, ..old(self)@ }),
    {
        self.poisoned = true;
    }

    /// The total, once every unit has added its delta.
    pub fn finish(&self) -> (r: Result<u128, CounterError>)
        requires
            self.wf(),
        ensures
            self@.poisoned ==> r == Err::<u128, CounterError>(CounterError::LockPoisoned),
            !self@.poisoned && !self@.complete() ==> r == Err::<u128, CounterError>(
                CounterError::UnitsMissing,
            ),
            !self@.poisoned && self@.complete() ==> r == Ok::<u128, CounterError>(
                sum_of_deltas(self@.rule, self@.units()) as u128,
            ) && sum_of_deltas(self@.rule, self@.units()) <= u128::MAX,
    {
        proof {
            lemma_all_done(self.rule, self.done@, self.done@.len());
            lemma_count_done_bound(self.done@, self.done@.len());
        }
        if self.poisoned {
            Err(CounterError::LockPoisoned)
        } else if self.entered < self.done.len() {
            Err(CounterError::UnitsMissing)
        } else {
            Ok(self.total)
        }
    }
}

/// `order` is a schedule of `n` units: it lets each of them in exactly once.
pub open spec fn is_schedule(order: Seq<usize>, n: nat) -> bool {
    &&& order.len() == n
    &&& forall|k: int| 0 <= k < order.len() ==> order[k] < n
    &&& forall|j: int, k: int| 0 <= j < k < order.len() ==> order[j] != order[k]
}

/// Position `k` of `order` names a unit that the run does not have, or one
/// that an earlier position has let in.
pub open spec fn is_fault(order: Seq<usize>, n: nat, k: int) -> bool {
    order[k] >= n || exists|j: int| 0 <= j < k && order[j] == order[k]
}

/// `order` has a fault, and its first one stands at position `k`.
pub open spec fn is_first_fault(order: Seq<usize>, n: nat, k: int) -> bool {
    &&& 0 <= k < order.len()
    &&& is_fault(order, n, k)
    &&& forall|j: int| 0 <= j < k ==> !is_fault(order, n, j)
}

/// What a run of `n` units returns when the units take the lock in the order
/// `order`: the sum of all deltas where `order` is a schedule, else what was
/// wrong with the first position that is at fault, else that units are missing.
pub open spec fn run_outcome(rule: Delta, n: nat, order: Seq<usize>) -> Result<nat, CounterError> {
    if exists|k: int| is_first_fault(order, n, k) {
        let k = choose|k: int| is_first_fault(order, n, k);
        if order[k] >= n {
            Err(CounterError::UnknownUnit)
        } else {
            Err(CounterError::UnitRepeated)
        }
    } else if order.len() != n {
        Err(CounterError::UnitsMissing)
    } else {
        Ok(sum_of_deltas(rule, n))
    }
}

/// Runs `n` units that take the lock in the order `order`, each adding its
/// delta under `rule`, and returns the total that the launcher reads once all
/// have finished.
pub fn run_parallel_increments(n: usize, rule: Delta, order: &Vec<usize>) -> (r: Result<
    u128,
    CounterError,
>)
    ensures
        match r {
            Ok(total) => run_outcome(rule, n as nat, order@) == Ok::<nat, CounterError>(
                total as nat,
            ),
            Err(e) => run_outcome(rule, n as nat, order@) == Err::<nat, CounterError>(e),
        },
        is_schedule(order@, n as nat) ==> r == Ok::<u128, CounterError>(
            sum_of_deltas(rule, n as nat) as u128,
        ),
        is_schedule(order@, n as nat) && rule == Delta::One ==> r == Ok::<u128, CounterError>(
            n as u128,
        ),
        is_schedule(order@, n as nat) && rule == Delta::UnitIndex ==> (r matches Ok(total) && 2
            * total == n * (n - 1)),
{
    let mut run = IncrementRun::new(n, rule);
    let mut k: usize = 0;
    proof {
        lemma_unmarked(rule, run@.done, n as nat);
    }
    while k < order.len()
        invariant
            0 <= k <= order.len(),
            run.wf(),
            run@.rule == rule,
            run@.done.len() == n,
            !run@.poisoned,
            count_done(run@.done, n as nat) == k,
            forall|j: int| 0 <= j < k ==> !is_fault(order@, n as nat, j),
            forall|u: int|
                0 <= u < n ==> (#[trigger] run@.done[u] <==> exists|j: int|
                    0 <= j < k && order@[j] == u),
        decreases order.len() - k,
    {
        let unit = order[k];
        let ghost before = run@.done;
        match run.unit_enters(unit) {
            Err(e) => {
                proof {
                    // No earlier position is at fault, so this one is the first.
                    assert(is_first_fault(order@, n as nat, k as int));
                }
                return Err(e);
            },
            Ok(()) => {
                proof {
                    lemma_mark(rule, before, unit as int, n as nat);
                }
            },
        }
        k = k + 1;
    }
    proof {
        lemma_all_done(rule, run@.done, n as nat);
        lemma_sum_of_deltas_closed_form(rule, n as nat);
    }
    run.finish()
}

/// A run succeeds on the schedules, and on nothing else; and on every schedule
/// it returns the same total.
pub proof fn lemma_total_is_independent_of_schedule(rule: Delta, n: nat, order: Seq<usize>)
    ensures
        is_schedule(order, n) <==> run_outcome(rule, n, order) is Ok,
        is_schedule(order, n) ==> run_outcome(rule, n, order) == Ok::<nat, CounterError>(
            sum_of_deltas(rule, n),
        ),
        is_schedule(order, n) && rule == Delta::One ==> run_outcome(rule, n, order) == Ok::<
            nat,
            CounterError,
        >(n),
{
    lemma_sum_of_deltas_closed_form(rule, n);
    if !is_schedule(order, n) && !(exists|k: int| is_first_fault(order, n, k)) && order.len() == n {
        // Without a first fault there is no fault: `order` would be a schedule.
        lemma_no_fault(order, n, n as int);
        assert forall|j: int, k: int| 0 <= j < k < order.len() implies order[j] != order[k] by {
            assert(!is_fault(order, n, k));
        }
        assert forall|k: int| 0 <= k < order.len() implies order[k] < n by {
            assert(!is_fault(order, n, k));
        }
    }
}

/// The sum of the deltas of those units below `upto` that `done` marks.
pub open spec fn applied_sum(rule: Delta, done: Seq<bool>, upto: nat) -> nat
    decreases upto,
{
    if upto == 0 {
        0
    } else {
        applied_sum(rule, done, (upto - 1) as nat) + if done[upto - 1] {
            delta_of(rule, (upto - 1) as nat)
        } else {
            0
        }
    }
}

/// How many units below `upto` are marked in `done`.
spec fn count_done(done: Seq<bool>, upto: nat) -> nat
    decreases upto,
{
    if upto == 0 {
        0
    } else {
        count_done(done, (upto - 1) as nat) + if done[upto - 1] {
            1nat
        } else {
            0nat
        }
    }
}

/// Where no position is a first fault, no position is a fault.
proof fn lemma_no_fault(order: Seq<usize>, n: nat, upto: int)
    requires
        !(exists|k: int| is_first_fault(order, n, k)),
        0 <= upto <= order.len(),
    ensures
        forall|k: int| 0 <= k < upto ==> !is_fault(order, n, k),
    decreases upto,
{
    if upto > 0 {
        lemma_no_fault(order, n, upto - 1);
        assert(!is_first_fault(order, n, upto - 1));
    }
}

proof fn lemma_unmarked(rule: Delta, done: Seq<bool>, upto: nat)
    requires
        upto <= done.len(),
        forall|i: int| 0 <= i < done.len() ==> !done[i],
    ensures
        applied_sum(rule, done, upto) == 0,
        count_done(done, upto) == 0,
    decreases upto,
{
    if upto > 0 {
        lemma_unmarked(rule, done, (upto - 1) as nat);
    }
}

/// Marking one more unit adds its delta to the sum and one to the count.
proof fn lemma_mark(rule: Delta, done: Seq<bool>, unit: int, upto: nat)
    requires
        0 <= unit < done.len(),
        !done[unit],
        upto <= done.len(),
    ensures
        applied_sum(rule, done.update(unit, true), upto) == applied_sum(rule, done, upto) + if unit
            < upto {
            delta_of(rule, unit as nat)
        } else {
            0
        },
        count_done(done.update(unit, true), upto) == count_done(done, upto) + if unit < upto {
            1nat
        } else {
            0nat
        },
    decreases upto,
{
    if upto > 0 {
        lemma_mark(rule, done, unit, (upto - 1) as nat);
    }
}

/// Where every unit below `upto` is counted, every one is marked, and the
/// marked deltas are all the deltas.
proof fn lemma_all_done(rule: Delta, done: Seq<bool>, upto: nat)
    requires
        upto <= done.len(),
    ensures
        count_done(done, upto) == upto <==> (forall|i: int| 0 <= i < upto ==> done[i]),
        count_done(done, upto) == upto ==> applied_sum(rule, done, upto) == sum_of_deltas(
            rule,
            upto,
        ),
    decreases upto,
{
    if upto > 0 {
        lemma_all_done(rule, done, (upto - 1) as nat);
        lemma_count_done_bound(done, (upto - 1) as nat);
    }
}

proof fn lemma_applied_sum_bound(rule: Delta, done: Seq<bool>, upto: nat, n: nat)
    requires
        upto <= n,
        1 <= n,
    ensures
        applied_sum(rule, done, upto) <= upto * n,
    decreases upto,
{
    if upto > 0 {
        lemma_applied_sum_bound(rule, done, (upto - 1) as nat, n);
        assert(upto * n == (upto - 1) * n + n) by (nonlinear_arith);
    }
}

proof fn lemma_count_done_bound(done: Seq<bool>, upto: nat)
    ensures
        count_done(done, upto) <= upto,
    decreases upto,
{
    if upto > 0 {
        lemma_count_done_bound(done, (upto - 1) as nat);
    }
}

} // verus!
