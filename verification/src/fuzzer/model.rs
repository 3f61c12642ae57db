//! The loop controller as a state machine over plain values.
//!
//! `step` says what one run does to the controller. The executable
//! controller is held to it, and the laws below are proved of it.
use crate::fuzzer::parser::hit_part;
use crate::fuzzer::parser::lemma_novel_lines_finite;
use crate::fuzzer::parser::novel_lines;
use crate::fuzzer::parser::reachable_part;
use crate::fuzzer::parser::Marker;
use crate::fuzzer::pool::ascending;
use crate::fuzzer::pool::bumped;
use crate::fuzzer::pool::can_raise;
use crate::fuzzer::pool::distinct;
use crate::fuzzer::pool::lemma_bumped_distinct;
use crate::fuzzer::pool::lemma_ordered;
use crate::fuzzer::pool::lemma_ordered_distinct;
use crate::fuzzer::pool::lemma_reseeded;
use crate::fuzzer::pool::ordered;
use crate::fuzzer::pool::reseeded;
use crate::fuzzer::SeedView;
use crate::mutator::is_deletion;
use crate::mutator::is_flip;
use crate::mutator::is_insertion;
use crate::scheduler::TOP_COUNT;
use vstd::prelude::*;

verus! {

/// After how many runs without a new line a notice is due.
pub const PROGRESS_PERIOD: u32 = 5000;

/// After how many runs without a new line the pool is made anew.
pub const RESEED_PERIOD: u32 = 10000;

/// After how many runs without a new line the loop gives up.
pub const STAGNATION_LIMIT: u32 = 50000;

/// Where the loop stands.
#[derive(Clone, Copy, Debug, PartialEq, Eq, Structural)]
pub enum Status {
    /// More runs are wanted.
    Running,
    /// A run reached every line that can run.
    DoneFullCoverage,
    /// Too many runs in a row reached nothing new.
    DoneExhausted,
}

/// The controller as contracts see it.
pub struct FuzzerView {
    /// The strings given at the start.
    pub seeds: Seq<Seq<char>>,
    /// The pool.
    pub pool: Seq<SeedView>,
    /// The inputs kept so far, oldest first: each led to new lines.
    pub inputs: Seq<Seq<char>>,
    /// Every line that ran in some run so far.
    pub covered: Set<i32>,
    /// How many lines can run, as the first run showed.
    pub total: nat,
    /// How many runs were taken in.
    pub num_exec: nat,
    /// How many runs in a row reached nothing new.
    pub stagnation: nat,
    pub status: Status,
    /// Whether progress is to be shown.
    pub print_stats: bool,
}

/// A controller that has taken in no run yet.
pub open spec fn initial(seeds: Seq<Seq<char>>, print_stats: bool) -> FuzzerView {
    FuzzerView {
        seeds,
        pool: Seq::empty(),
        inputs: Seq::empty(),
        covered: Set::empty(),
        total: 0,
        num_exec: 0,
        stagnation: 0,
        status: Status::Running,
        print_stats,
    }
}

/// What holds of a controller between any two calls: the strings of the
/// pool are apart, its energies ascend, and while the loop runs the
/// limit of runs without a new line is not reached.
pub open spec fn wf(state: FuzzerView) -> bool {
    &&& distinct(state.pool)
    &&& ascending(state.pool)
    &&& state.stagnation <= STAGNATION_LIMIT
    &&& state.status == Status::Running ==> state.stagnation < STAGNATION_LIMIT
}

/// The positions that the scheduler may select in a pool of `len`
/// entries.
pub open spec fn selectable(len: int, i: int) -> bool {
    if len < TOP_COUNT {
        i == 0
    } else {
        len - TOP_COUNT <= i < len
    }
}

/// `mutant` is one edit away from an entry that the scheduler may select.
pub open spec fn follows(pool: Seq<SeedView>, mutant: Seq<char>) -> bool {
    exists|i: int|
        0 <= i < pool.len() && selectable(pool.len() as int, i) && {
            let value = (#[trigger] pool[i]).value;
            is_insertion(value, mutant) || is_deletion(value, mutant) || is_flip(value, mutant)
        }
}

/// Whether the controller can take in a run of `candidate`: it is
/// well-formed, and neither the count of runs nor the energy of
/// `candidate` stands at the largest number that it can hold.
pub open spec fn accepts(state: FuzzerView, candidate: Seq<char>) -> bool {
    &&& wf(state)
    &&& state.num_exec < u64::MAX
    &&& can_raise(state.pool, candidate)
}

/// Whether the run with this report reached a line not covered before.
pub open spec fn is_novel(state: FuzzerView, report: Map<i32, Marker>) -> bool {
    novel_lines(report, state.covered).len() > 0
}

/// Whether taking in this run calls for a notice of progress.
pub open spec fn notice_due(state: FuzzerView, report: Map<i32, Marker>) -> bool {
    &&& state.status == Status::Running
    &&& !is_novel(state, report)
    &&& (state.stagnation + 1) % (PROGRESS_PERIOD as nat) == 0
}

/// Whether taking in this run makes the pool anew.
pub open spec fn reseed_due(state: FuzzerView, report: Map<i32, Marker>) -> bool {
    &&& state.status == Status::Running
    &&& !is_novel(state, report)
    &&& (state.stagnation + 1) % (RESEED_PERIOD as nat) == 0
}

/// The controller after it has taken in one run: `candidate` was the
/// input, `report` what came back, and `fresh` the strings made for a
/// reseed, if this run causes one.
///
/// A finished controller stays as it is. Else the lines that ran join
/// the covered ones and the run is counted; the first run fixes how many
/// lines can run. A run that reached a new line clears the count of
/// fruitless runs, raises or adds `candidate` in the pool, keeps it
/// among the inputs, and ends the loop if it reached every line that can
/// run. A run that reached nothing new is counted as fruitless; every
/// `RESEED_PERIOD` such runs the pool is made anew, and at
/// `STAGNATION_LIMIT` the loop gives up.
pub open spec fn step(
    state: FuzzerView,
    candidate: Seq<char>,
    report: Map<i32, Marker>,
    fresh: Seq<Seq<char>>,
) -> FuzzerView {
    let total = if state.num_exec == 0 {
        reachable_part(report).dom().len()
    } else {
        state.total
    };
    let covered = state.covered.union(novel_lines(report, state.covered));
    let num_exec = state.num_exec + 1;
    if state.status != Status::Running {
        state
    } else if is_novel(state, report) {
        FuzzerView {
            pool: ordered(bumped(state.pool, candidate)),
            inputs: state.inputs.push(candidate),
            covered,
            total,
            num_exec,
            stagnation: 0,
            status: if hit_part(report).dom().len() == total {
                Status::DoneFullCoverage
            } else {
                Status::Running
            },
            ..state
        }
    } else {
        let stagnation = state.stagnation + 1;
        FuzzerView {
            pool: if stagnation % (RESEED_PERIOD as nat) == 0 {
                reseeded(state.inputs, fresh)
            } else {
                state.pool
            },
            covered,
            total,
            num_exec,
            stagnation,
            status: if stagnation >= STAGNATION_LIMIT {
                Status::DoneExhausted
            } else {
                Status::Running
            },
            ..state
        }
    }
}

/// One run as the controller takes it in: the input, the report that
/// came back, and the strings made in case the run causes a reseed.
pub struct Run {
    pub candidate: Seq<char>,
    pub report: Map<i32, Marker>,
    pub fresh: Seq<Seq<char>>,
}

/// The controller after it has taken in `runs`, one after the other.
pub open spec fn after(state: FuzzerView, runs: Seq<Run>) -> FuzzerView
    decreases runs.len(),
{
    if runs.len() == 0 {
        state
    } else {
        let run = runs.last();
        step(after(state, runs.drop_last()), run.candidate, run.report, run.fresh)
    }
}

/// Taking in a run leaves a well-formed controller well-formed, whatever
/// the run and whatever strings a reseed is given.
pub proof fn lemma_step_wf(
    state: FuzzerView,
    candidate: Seq<char>,
    report: Map<i32, Marker>,
    fresh: Seq<Seq<char>>,
)
    requires
        wf(state),
    ensures
        wf(step(state, candidate, report, fresh)),
{
    lemma_bumped_distinct(state.pool, candidate);
    lemma_ordered(bumped(state.pool, candidate));
    lemma_ordered_distinct(bumped(state.pool, candidate));
    lemma_reseeded(state.inputs, fresh);
}

/// Taking in a run only adds to the inputs kept, never changes the
/// strings given at the start, and after the first run never changes how
/// many lines can run.
pub proof fn lemma_step_keeps(
    state: FuzzerView,
    candidate: Seq<char>,
    report: Map<i32, Marker>,
    fresh: Seq<Seq<char>>,
)
    ensures
        step(state, candidate, report, fresh).seeds == state.seeds,
        step(state, candidate, report, fresh).print_stats == state.print_stats,
        state.inputs.is_prefix_of(step(state, candidate, report, fresh).inputs),
        state.num_exec > 0 ==> step(state, candidate, report, fresh).total == state.total,
{
}

/// Taking in a run never takes a line out of the covered ones: the set
/// after the run holds the set before it, and is at least as large.
pub proof fn lemma_step_covered(
    state: FuzzerView,
    candidate: Seq<char>,
    report: Map<i32, Marker>,
    fresh: Seq<Seq<char>>,
)
    requires
        state.covered.finite(),
        report.dom().finite(),
    ensures
        state.covered.subset_of(step(state, candidate, report, fresh).covered),
        step(state, candidate, report, fresh).covered.finite(),
        state.covered.len() <= step(state, candidate, report, fresh).covered.len(),
{
    lemma_novel_lines_finite(report, state.covered);
    let next = step(state, candidate, report, fresh).covered;
    vstd::set_lib::lemma_len_subset(state.covered, next);
}

/// Over any sequence of runs the number of covered lines never falls:
/// after the first `later` runs at least as many lines are covered as
/// after the first `earlier` of them, and none was lost.
pub proof fn lemma_covered_never_shrinks(
    state: FuzzerView,
    runs: Seq<Run>,
    earlier: int,
    later: int,
)
    requires
        state.covered.finite(),
        forall|k: int| 0 <= k < runs.len() ==> (#[trigger] runs[k]).report.dom().finite(),
        0 <= earlier <= later <= runs.len(),
    ensures
        after(state, runs.take(later)).covered.finite(),
        after(state, runs.take(earlier)).covered.subset_of(after(state, runs.take(later)).covered),
        after(state, runs.take(earlier)).covered.len() <= after(
            state,
            runs.take(later),
        ).covered.len(),
    decreases later,
{
    if later > 0 {
        let upto = runs.take(later);
        let before = after(state, runs.take(later - 1));
        assert(upto.drop_last() =~= runs.take(later - 1));
        if earlier < later {
            lemma_covered_never_shrinks(state, runs, earlier, later - 1);
        } else {
            lemma_covered_never_shrinks(state, runs, later - 1, later - 1);
        }
        let run = runs[later - 1];
        lemma_step_covered(before, run.candidate, run.report, run.fresh);
        if earlier < later {
            vstd::set_lib::lemma_len_subset(
                after(state, runs.take(earlier)).covered,
                after(state, upto).covered,
            );
        }
    }
}

} // verus!
