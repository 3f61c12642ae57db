//! The population scheduler: which seed is mutated next.
//!
//! The scheduler only reads the pool. It favours energy: the pool is kept
//! in ascending order of energy, so its last entries are the strongest.
use crate::fuzzer::pool::ascending;
use crate::fuzzer::pool::pool_view;
use crate::fuzzer::Seed;
use crate::fuzzer::SeedView;
use crate::random::uniform_inclusive;
use rand::rngs::StdRng;
use vstd::prelude::*;

verus! {

/// How many of the strongest entries the scheduler chooses among.
pub const TOP_COUNT: usize = 3;

/// The position that a draw selects in a pool of `len` entries: the first
/// entry while the pool is smaller than `TOP_COUNT`, else the entry `draw`
/// places into the last `TOP_COUNT`.
pub open spec fn selected(len: int, draw: int) -> int {
    if len < TOP_COUNT {
        0
    } else {
        len - TOP_COUNT + draw
    }
}

/// The scheduler. It keeps no state of its own.
pub struct Scheduler {}

impl Scheduler {
    /// A scheduler.
    pub fn new() -> Scheduler {
        Scheduler {}
    }

    /// The entry that `draw` selects. The pool must not be empty: there is
    /// nothing to hand out from an empty pool.
    pub fn select_at<'a>(&self, population: &'a Vec<Seed>, draw: usize) -> (seed: &'a Seed)
        requires
            population@.len() > 0,
            draw < TOP_COUNT,
        ensures
            *seed == population@[selected(population@.len() as int, draw as int)],
    {
        let len: usize = population.len();
        if len < TOP_COUNT {
            &population[0]
        } else {
            &population[len - TOP_COUNT + draw]
        }
    }

    /// The seed to mutate next. A pool of fewer than `TOP_COUNT` entries
    /// always gives its first entry; a larger one gives one of its last
    /// `TOP_COUNT` entries, drawn evenly, which in a pool kept in ascending
    /// order of energy are its strongest. The pool must not be empty.
    pub fn select_next<'a>(&self, population: &'a Vec<Seed>, rng: &mut StdRng) -> (seed: &'a Seed)
        requires
            population@.len() > 0,
        ensures
            population@.len() < TOP_COUNT ==> *seed == population@[0],
            population@.len() >= TOP_COUNT ==> exists|i: int|
                population@.len() - TOP_COUNT <= i < population@.len() && *seed
                    == #[trigger] population@[i],
            population@.len() >= TOP_COUNT && ascending(pool_view(population@)) ==> forall|j: int|
                0 <= j < population@.len() - TOP_COUNT ==> (#[trigger] population@[j]).energy
                    <= seed.energy,
    {
        if population.len() < TOP_COUNT {
            self.select_at(population, 0)
        } else {
            let draw: usize = uniform_inclusive(rng, 0, TOP_COUNT - 1);
            proof {
                let pool = pool_view(population@);
                let chosen = selected(population@.len() as int, draw as int);
                if ascending(pool) {
                    assert forall|j: int|
                        0 <= j < population@.len() - TOP_COUNT implies (#[trigger] population@[j]).energy
                        <= population@[chosen].energy by {
                        lemma_last_entries_are_strongest(pool, chosen, j);
                    }
                }
            }
            self.select_at(population, draw)
        }
    }
}

/// In a pool whose energies ascend, no entry before the last `TOP_COUNT`
/// has more energy than one of the last `TOP_COUNT`: what the scheduler
/// draws from a large pool is one of the strongest entries.
pub proof fn lemma_last_entries_are_strongest(pool: Seq<SeedView>, chosen: int, other: int)
    requires
        ascending(pool),
        pool.len() >= TOP_COUNT,
        pool.len() - TOP_COUNT <= chosen < pool.len(),
        0 <= other < pool.len() - TOP_COUNT,
    ensures
        pool[other].energy <= pool[chosen].energy,
{
}

} // verus!
