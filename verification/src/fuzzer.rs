//! The loop controller, its seeds and what it reports.
pub mod model;
pub mod parser;
pub mod pool;

use crate::fuzzer::model::accepts;
use crate::fuzzer::model::follows;
use crate::fuzzer::model::initial;
use crate::fuzzer::model::is_novel;
use crate::fuzzer::model::notice_due;
use crate::fuzzer::model::reseed_due;
use crate::fuzzer::model::selectable;
use crate::fuzzer::model::step;
use crate::fuzzer::model::wf;
use crate::fuzzer::model::FuzzerView;
use crate::fuzzer::model::Status;
use crate::fuzzer::model::PROGRESS_PERIOD;
use crate::fuzzer::model::RESEED_PERIOD;
use crate::fuzzer::model::STAGNATION_LIMIT;
use crate::fuzzer::parser::get_cov;
use crate::fuzzer::parser::hit_part;
use crate::fuzzer::parser::lemma_novel_lines_finite;
use crate::fuzzer::parser::novel_lines;
use crate::fuzzer::parser::reachable_part;
use crate::fuzzer::parser::Marker;
use crate::fuzzer::pool::bumped;
use crate::fuzzer::pool::can_raise;
use crate::fuzzer::pool::distinct;
use crate::fuzzer::pool::filled;
use crate::fuzzer::pool::find_seed;
use crate::fuzzer::pool::gather;
use crate::fuzzer::pool::gathered;
use crate::fuzzer::pool::holds;
use crate::fuzzer::pool::is_ascending;
use crate::fuzzer::pool::is_distinct;
use crate::fuzzer::pool::lemma_bumped_distinct;
use crate::fuzzer::pool::lemma_gathered;
use crate::fuzzer::pool::lemma_ordered;
use crate::fuzzer::pool::lemma_ordered_distinct;
use crate::fuzzer::pool::lemma_position;
use crate::fuzzer::pool::lemma_reseeded;
use crate::fuzzer::pool::may_raise;
use crate::fuzzer::pool::ordered;
use crate::fuzzer::pool::pool_view;
use crate::fuzzer::pool::reseeded;
use crate::fuzzer::pool::sort_by_energy;
use crate::mutator::gen_random_strings;
use crate::mutator::Mutator;
use crate::mutator::RANDOM_STRING_MAX;
use crate::mutator::RANDOM_STRING_MIN;
use crate::random::all_printable;
use crate::scheduler::Scheduler;
use crate::text::texts;
use rand::rngs::StdRng;
use std::collections::HashMap;
use std::collections::HashSet;
use vstd::prelude::*;
use vstd::std_specs::iter::IteratorSpec;
use vstd::std_specs::hash::group_hash_axioms;

verus! {

/// What one run of the target added up to.
#[derive(Debug)]
pub struct Coverage {
    /// The lines that ran and had not run before.
    pub unique_lines: HashSet<i32>,
    /// How many lines ran.
    pub hitted_lines: usize,
    /// How many lines can run.
    pub reachable_lines: usize,
}

impl Coverage {
    /// How many lines ran that had not run before.
    pub fn unique_hits(&self) -> (count: usize)
        ensures
            count == self.unique_lines@.len(),
    {
        broadcast use group_hash_axioms;

        self.unique_lines.len()
    }
}

/// A seed as contracts see it: its characters and its energy.
pub struct SeedView {
    pub value: Seq<char>,
    pub energy: nat,
}

/// A string kept for mutation, with the number of times it has led to
/// lines not seen before.
#[derive(Debug)]
pub struct Seed {
    pub value: String,
    pub energy: u32,
}

impl View for Seed {
    type V = SeedView;

    open spec fn view(&self) -> SeedView {
        SeedView { value: self.value@, energy: self.energy as nat }
    }
}

impl Clone for Seed {
    fn clone(&self) -> (r: Seed)
        ensures
            r == *self,
    {
        Seed { value: self.value.clone(), energy: self.energy }
    }
}

impl Seed {
    /// A fresh seed: it has no energy yet.
    pub fn new(value: String) -> (seed: Seed)
        ensures
            seed.value == value,
            seed.energy == 0,
    {
        Seed { value, energy: 0 }
    }
}

/// The character between a directory and a name in a path.
pub const PATH_SEPARATOR: char = '/';

/// The path of `cmd` inside the directory `path`.
pub fn get_full_path(path: &str, cmd: &str) -> (full: String)
    ensures
        full@ == path@.push(PATH_SEPARATOR) + cmd@,
{
    let mut full = path.to_owned();
    full.push(PATH_SEPARATOR);
    full.append(cmd);
    full
}

/// The name of the report that the coverage tool writes for the
/// executable `cmd`.
pub fn get_coverage_name(cmd: &str) -> (name: String)
    ensures
        name@ == cmd@ + ".c.gcov"@,
{
    let mut name = cmd.to_owned();
    name.append(".c.gcov");
    name
}

/// Strictly ascending: each number is smaller than the next.
pub open spec fn strictly_ascending(lines: Seq<i32>) -> bool {
    forall|i: int, j: int| 0 <= i < j < lines.len() ==> lines[i] < lines[j]
}

/// The lines of a set, each once, smallest first.
pub fn sorted_lines(lines: &HashSet<i32>) -> (sorted: Vec<i32>)
    ensures
        strictly_ascending(sorted@),
        sorted@.to_set() == lines@,
{
    broadcast use group_hash_axioms;

    let mut sorted: Vec<i32> = Vec::new();
    for line in it: lines.iter()
        invariant
            it.seq() == lines.iter().remaining(),
            strictly_ascending(sorted@),
            forall|k: int| 0 <= k < sorted@.len() ==> lines@.contains(#[trigger] sorted@[k]),
            forall|i: int| 0 <= i < it.index() ==> sorted@.contains(*#[trigger] it.seq()[i]),
    {
        proof {
            let seq = it.seq();
            assert(seq.unref()[it.index()] == *line);
            assert(seq.unref().to_set().contains(*line));
        }
        let ghost before = sorted@;
        let mut at: usize = 0;
        while at < sorted.len() && sorted[at] < *line
            invariant
                at <= sorted@.len(),
                forall|k: int| 0 <= k < at ==> sorted@[k] < *line,
            decreases sorted@.len() - at,
        {
            at = at + 1;
        }
        if at == sorted.len() || sorted[at] != *line {
            sorted.insert(at, *line);
            proof {
                assert forall|i: int| 0 <= i < it.index() implies sorted@.contains(
                    *#[trigger] it.seq()[i],
                ) by {
                    let k = choose|k: int| 0 <= k < before.len() && before[k] == *it.seq()[i];
                    if k < at {
                        assert(sorted@[k] == before[k]);
                    } else {
                        assert(sorted@[k + 1] == before[k]);
                    }
                }
                assert(sorted@[at as int] == *line);
            }
        }
    }
    proof {
        let seq = lines.iter().remaining();
        assert forall|l: i32| lines@.contains(l) implies sorted@.to_set().contains(l) by {
            assert(seq.unref().to_set().contains(l));
            let i = choose|i: int| 0 <= i < seq.unref().len() && seq.unref()[i] == l;
            assert(*seq[i] == l);
        }
        assert(sorted@.to_set() =~= lines@);
    }
    sorted
}

/// A set of lines held in memory is finite.
pub proof fn lemma_lines_finite(lines: &HashSet<i32>)
    ensures
        lines@.finite(),
{
    broadcast use group_hash_axioms;

    let listed = lines.iter().remaining().unref();
    vstd::seq_lib::seq_to_set_is_finite(listed);
}

/// Adds every line of `lines` to `seen`.
pub fn merge(seen: &mut HashSet<i32>, lines: &HashSet<i32>)
    ensures
        final(seen)@ == old(seen)@.union(lines@),
{
    broadcast use group_hash_axioms;

    for line in it: lines.iter()
        invariant
            it.seq() == lines.iter().remaining(),
            forall|l: i32| #[trigger] seen@.contains(l) ==> old(seen)@.contains(l) || lines@.contains(l),
            forall|l: i32| old(seen)@.contains(l) ==> #[trigger] seen@.contains(l),
            forall|i: int| 0 <= i < it.index() ==> seen@.contains(*#[trigger] it.seq()[i]),
    {
        proof {
            let seq = it.seq();
            assert(seq.unref()[it.index()] == *line);
            assert(seq.unref().to_set().contains(*line));
        }
        seen.insert(*line);
    }
    proof {
        let seq = lines.iter().remaining();
        assert forall|l: i32| lines@.contains(l) implies seen@.contains(l) by {
            assert(seq.unref().to_set().contains(l));
            let i = choose|i: int| 0 <= i < seq.unref().len() && seq.unref()[i] == l;
            assert(*seq[i] == l);
        }
        assert(seen@ =~= old(seen)@.union(lines@));
    }
}

/// What the controller reports of one run it has taken in.
pub struct Progress {
    /// What the run added up to.
    pub coverage: Coverage,
    /// Whether the input was kept: it reached a line not covered before.
    pub retained: bool,
    /// Whether a notice of progress is due.
    pub notice: bool,
    /// The strings made for a reseed; empty unless this run caused one.
    pub fresh: Vec<String>,
    /// Where the loop stands now.
    pub status: Status,
}

/// The loop controller. It owns the pool, the inputs kept, the lines
/// covered and the random source.
pub struct Fuzzer {
    seeds: Vec<String>,
    pub population: Vec<Seed>,
    print_stats: bool,
    mutator: Mutator,
    scheduler: Scheduler,
    rng: StdRng,
    inputs: Vec<String>,
    unique_hits_global: HashSet<i32>,
    total_number_of_lines: usize,
    num_exec: u64,
    non_unique_hits: u32,
    status: Status,
}

impl View for Fuzzer {
    type V = FuzzerView;

    closed spec fn view(&self) -> FuzzerView {
        FuzzerView {
            seeds: texts(self.seeds@),
            pool: pool_view(self.population@),
            inputs: texts(self.inputs@),
            covered: self.unique_hits_global@,
            total: self.total_number_of_lines as nat,
            num_exec: self.num_exec as nat,
            stagnation: self.non_unique_hits as nat,
            status: self.status,
            print_stats: self.print_stats,
        }
    }
}

impl Fuzzer {
    /// A controller that has taken in no run yet. Its pool is empty until
    /// the first call of `fuzz` or `fill_population`.
    pub fn new(
        seeds: Vec<String>,
        mutator: Mutator,
        scheduler: Scheduler,
        rng: StdRng,
        print_stats: bool,
    ) -> (fuzzer: Fuzzer)
        ensures
            fuzzer@ == initial(texts(seeds@), print_stats),
            wf(fuzzer@),
    {
        let fuzzer = Fuzzer {
            seeds,
            population: Vec::new(),
            print_stats,
            mutator,
            scheduler,
            rng,
            inputs: Vec::new(),
            unique_hits_global: HashSet::new(),
            total_number_of_lines: 0,
            num_exec: 0,
            non_unique_hits: 0,
            status: Status::Running,
        };
        assert(fuzzer@.pool =~= Seq::empty());
        assert(fuzzer@.inputs =~= Seq::empty());
        fuzzer
    }

    /// Where the loop stands.
    pub fn status(&self) -> (status: Status)
        ensures
            status == self@.status,
    {
        self.status
    }

    /// Whether more runs are wanted.
    pub fn is_running(&self) -> (running: bool)
        ensures
            running == (self@.status == Status::Running),
    {
        self.status == Status::Running
    }

    /// Whether progress is to be shown.
    pub fn print_stats(&self) -> (shown: bool)
        ensures
            shown == self@.print_stats,
    {
        self.print_stats
    }

    /// The inputs kept so far, oldest first.
    pub fn inputs(&self) -> (inputs: &Vec<String>)
        ensures
            texts(inputs@) == self@.inputs,
    {
        &self.inputs
    }

    /// Every line that ran in some run so far.
    pub fn unique_hits_global(&self) -> (lines: &HashSet<i32>)
        ensures
            lines@ == self@.covered,
    {
        &self.unique_hits_global
    }

    /// How many lines can run, as the first run showed; `0` before it.
    pub fn total_number_of_lines(&self) -> (total: usize)
        ensures
            total == self@.total,
    {
        self.total_number_of_lines
    }

    /// How many runs were taken in.
    pub fn num_exec(&self) -> (count: u64)
        ensures
            count == self@.num_exec,
    {
        self.num_exec
    }

    /// The strings given at the start.
    pub fn seeds(&self) -> (seeds: &Vec<String>)
        ensures
            texts(seeds@) == self@.seeds,
    {
        &self.seeds
    }

    /// Whether the controller is as every call leaves it: see `wf`. It is,
    /// unless `population` was changed from outside.
    pub fn is_well_formed(&self) -> (well_formed: bool)
        ensures
            well_formed == wf(self@),
    {
        let in_bounds: bool = self.non_unique_hits <= STAGNATION_LIMIT && (self.status
            != Status::Running || self.non_unique_hits < STAGNATION_LIMIT);
        in_bounds && is_ascending(&self.population) && is_distinct(&self.population)
    }

    /// Whether a run of `candidate` can be taken in: see `accepts`.
    pub fn accepts(&self, candidate: &String) -> (accepted: bool)
        ensures
            accepted == accepts(self@, candidate@),
    {
        self.is_well_formed() && self.num_exec < u64::MAX && may_raise(&self.population, candidate)
    }

    /// How many runs in a row reached nothing new.
    pub fn non_unique_hits(&self) -> (count: u32)
        ensures
            count == self@.stagnation,
    {
        self.non_unique_hits
    }

    /// The next input to run: one edit of a seed that the scheduler
    /// selects. An empty pool is first filled from the strings given at
    /// the start, so there must be some in either.
    pub fn fuzz(&mut self) -> (mutant: String)
        requires
            old(self)@.pool.len() > 0 || old(self)@.seeds.len() > 0,
        ensures
            final(self)@ == (FuzzerView {
                pool: filled(old(self)@.pool, old(self)@.seeds),
                ..old(self)@
            }),
            follows(final(self)@.pool, mutant@),
            wf(old(self)@) ==> wf(final(self)@),
    {
        proof {
            lemma_gathered(old(self)@.pool, old(self)@.seeds);
        }
        if self.population.len() == 0 {
            gather(&mut self.population, &self.seeds);
        }
        let candidate = self.scheduler.select_next(&self.population, &mut self.rng);
        let ghost chosen = choose|i: int|
            0 <= i < self.population@.len() && selectable(self.population@.len() as int, i)
                && *candidate == self.population@[i];
        assert(pool_view(self.population@)[chosen].value == candidate.value@);
        self.mutator.mutate(candidate.value.clone(), &mut self.rng)
    }

    /// Fills an empty pool with a fresh seed for each of `seeds`, a string
    /// that occurs twice taken once. A pool that holds something is left
    /// alone.
    pub fn fill_population(&mut self, seeds: Vec<String>)
        ensures
            final(self)@ == (FuzzerView {
                pool: filled(old(self)@.pool, texts(seeds@)),
                ..old(self)@
            }),
            wf(old(self)@) ==> wf(final(self)@),
    {
        proof {
            lemma_gathered(old(self)@.pool, texts(seeds@));
        }
        if self.population.len() == 0 {
            gather(&mut self.population, &seeds);
        }
    }

    /// Replaces the pool by a fresh seed for each input kept so far.
    pub fn reset(&mut self)
        ensures
            final(self)@ == (FuzzerView {
                pool: gathered(Seq::empty(), old(self)@.inputs),
                ..old(self)@
            }),
    {
        self.population = Vec::new();
        assert(pool_view(self.population@) =~= Seq::empty());
        gather(&mut self.population, &self.inputs);
    }

    /// Makes the pool anew: a fresh seed for each input kept so far and
    /// for one newly made random string, which is handed back.
    pub fn reseed(&mut self) -> (fresh: Vec<String>)
        ensures
            final(self)@ == (FuzzerView {
                pool: reseeded(old(self)@.inputs, texts(fresh@)),
                ..old(self)@
            }),
            fresh@.len() == 1,
            RANDOM_STRING_MIN <= fresh@[0]@.len() <= RANDOM_STRING_MAX,
            all_printable(fresh@[0]@),
    {
        self.reset();
        let fresh = gen_random_strings(&mut self.rng);
        gather(&mut self.population, &fresh);
        fresh
    }

    /// Records in the pool that `candidate` led to new lines: its seed
    /// gains one unit of energy, or a new seed with one unit is added;
    /// then the pool is put in ascending order of energy again. The
    /// energy of `candidate` must have room for one more unit.
    pub fn update_population(&mut self, candidate: String)
        requires
            can_raise(old(self)@.pool, candidate@),
        ensures
            final(self)@ == (FuzzerView {
                pool: ordered(bumped(old(self)@.pool, candidate@)),
                ..old(self)@
            }),
            wf(old(self)@) ==> wf(final(self)@),
    {
        let ghost before = pool_view(self.population@);
        proof {
            lemma_position(before, candidate@);
            lemma_ordered(bumped(before, candidate@));
            if distinct(before) {
                lemma_bumped_distinct(before, candidate@);
                lemma_ordered_distinct(bumped(before, candidate@));
            }
        }
        let at: usize = find_seed(&self.population, &candidate);
        if at < self.population.len() {
            let energy: u32 = self.population[at].energy;
            self.population.set(at, Seed { value: candidate, energy: energy + 1 });
        } else {
            self.population.push(Seed { value: candidate, energy: 1 });
        }
        assert(pool_view(self.population@) =~= bumped(before, candidate@));
        sort_by_energy(&mut self.population);
    }

    /// Takes in one run: `candidate` is the input that was run and `map`
    /// the report that came back. See `step` for what changes, and
    /// `accepts` for when a run can be taken in.
    pub fn advance(&mut self, candidate: String, map: HashMap<i32, Marker>) -> (progress: Progress)
        requires
            accepts(old(self)@, candidate@),
        ensures
            final(self)@ == step(old(self)@, candidate@, map@, texts(progress.fresh@)),
            wf(final(self)@),
            progress.status == final(self)@.status,
            progress.coverage.reachable_lines == reachable_part(map@).dom().len(),
            progress.coverage.hitted_lines == hit_part(map@).dom().len(),
            progress.coverage.unique_lines@ == novel_lines(map@, old(self)@.covered),
            progress.retained == (old(self)@.status == Status::Running && is_novel(old(self)@, map@)),
            progress.notice == notice_due(old(self)@, map@),
            progress.fresh@.len() == if reseed_due(old(self)@, map@) {
                1nat
            } else {
                0nat
            },
            forall|i: int|
                0 <= i < progress.fresh@.len() ==> {
                    &&& RANDOM_STRING_MIN <= (#[trigger] progress.fresh@[i])@.len()
                        <= RANDOM_STRING_MAX
                    &&& all_printable(progress.fresh@[i]@)
                },
    {
        broadcast use group_hash_axioms;

        proof {
            lemma_lines_finite(&self.unique_hits_global);
            lemma_novel_lines_finite(map@, self@.covered);
        }
        let coverage = get_cov(map, &self.unique_hits_global);
        let mut retained: bool = false;
        let mut notice: bool = false;
        let mut fresh: Vec<String> = Vec::new();
        if self.status != Status::Running {
            return Progress { coverage, retained, notice, fresh, status: self.status };
        }
        if self.num_exec == 0 {
            self.total_number_of_lines = coverage.reachable_lines;
        }
        if coverage.unique_hits() > 0 {
            self.non_unique_hits = 0;
            self.inputs.push(candidate.clone());
            self.update_population(candidate);
            retained = true;
            if coverage.hitted_lines == self.total_number_of_lines {
                self.status = Status::DoneFullCoverage;
            }
        } else {
            self.non_unique_hits = self.non_unique_hits + 1;
            if self.non_unique_hits % PROGRESS_PERIOD == 0 {
                notice = true;
            }
            if self.non_unique_hits % RESEED_PERIOD == 0 {
                fresh = self.reseed();
                proof {
                    lemma_reseeded(old(self)@.inputs, texts(fresh@));
                }
            }
            if self.non_unique_hits >= STAGNATION_LIMIT {
                self.status = Status::DoneExhausted;
            }
        }
        merge(&mut self.unique_hits_global, &coverage.unique_lines);
        self.num_exec = self.num_exec + 1;
        proof {
            let post = step(old(self)@, candidate@, map@, texts(fresh@));
            assert(self@.inputs == post.inputs);
        }
        Progress { coverage, retained, notice, fresh, status: self.status }
    }
}

} // verus!
