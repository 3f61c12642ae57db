//! The seed pool: distinct strings in ascending order of energy.
//!
//! The pool is a `Vec<Seed>`. Contracts speak of it through `pool_view`,
//! as a sequence of `SeedView`.
use crate::fuzzer::Seed;
use crate::fuzzer::SeedView;
use crate::text::texts;
use vstd::prelude::*;

verus! {

/// The pool as contracts see it.
pub open spec fn pool_view(pool: Seq<Seed>) -> Seq<SeedView> {
    pool.map_values(|seed: Seed| seed@)
}

/// Energies never fall from one entry to the next.
pub open spec fn ascending(pool: Seq<SeedView>) -> bool {
    forall|i: int, j: int| 0 <= i <= j < pool.len() ==> pool[i].energy <= pool[j].energy
}

/// No two entries hold the same string.
pub open spec fn distinct(pool: Seq<SeedView>) -> bool {
    forall|i: int, j: int| 0 <= i < j < pool.len() ==> pool[i].value != pool[j].value
}

/// Some entry of the pool holds `value`.
pub open spec fn holds(pool: Seq<SeedView>, value: Seq<char>) -> bool {
    exists|i: int| 0 <= i < pool.len() && #[trigger] pool[i].value == value
}

/// Where `value` first stands in the pool; the length of the pool if it
/// stands nowhere.
pub open spec fn position(pool: Seq<SeedView>, value: Seq<char>) -> int
    decreases pool.len(),
{
    if pool.len() == 0 {
        0
    } else if pool[0].value == value {
        0
    } else {
        1 + position(pool.drop_first(), value)
    }
}

/// Whether the energy of `value` can still be raised: no entry holds
/// `value`, or the first that does is below the largest energy that a
/// seed can have.
pub open spec fn can_raise(pool: Seq<SeedView>, value: Seq<char>) -> bool {
    position(pool, value) < pool.len() ==> pool[position(pool, value)].energy < u32::MAX
}

/// The pool once `value` has led to new lines, before it is put in order
/// again: the entry that holds `value` gains one unit of energy; if no
/// entry holds it, a new entry with one unit of energy is added at the end.
pub open spec fn bumped(pool: Seq<SeedView>, value: Seq<char>) -> Seq<SeedView> {
    let at = position(pool, value);
    if at < pool.len() {
        pool.update(at, SeedView { value, energy: pool[at].energy + 1 })
    } else {
        pool.push(SeedView { value, energy: 1 })
    }
}

/// The pool with a fresh entry for each of `values` that it does not hold
/// yet, in their order.
pub open spec fn gathered(pool: Seq<SeedView>, values: Seq<Seq<char>>) -> Seq<SeedView>
    decreases values.len(),
{
    if values.len() == 0 {
        pool
    } else {
        let earlier = gathered(pool, values.drop_last());
        if holds(earlier, values.last()) {
            earlier
        } else {
            earlier.push(SeedView { value: values.last(), energy: 0 })
        }
    }
}

/// An empty pool is filled from the strings given at the start; a pool
/// that holds something is left alone.
pub open spec fn filled(pool: Seq<SeedView>, seeds: Seq<Seq<char>>) -> Seq<SeedView> {
    if pool.len() == 0 {
        gathered(pool, seeds)
    } else {
        pool
    }
}

/// The pool after a reseed: fresh entries for the inputs kept so far,
/// then for the newly made strings.
pub open spec fn reseeded(inputs: Seq<Seq<char>>, fresh: Seq<Seq<char>>) -> Seq<SeedView> {
    gathered(gathered(Seq::empty(), inputs), fresh)
}

/// Where an entry of the given energy goes: behind the last entry whose
/// energy is not greater.
pub open spec fn landing(pool: Seq<SeedView>, energy: nat) -> int
    decreases pool.len(),
{
    if pool.len() == 0 {
        0
    } else if pool.last().energy <= energy {
        pool.len() as int
    } else {
        landing(pool.drop_last(), energy)
    }
}

/// The pool in ascending order of energy, entries of equal energy in the
/// order in which they stood: each entry in turn, from the first, is put
/// behind the last already placed entry whose energy is not greater.
pub open spec fn ordered(pool: Seq<SeedView>) -> Seq<SeedView>
    decreases pool.len(),
{
    if pool.len() == 0 {
        pool
    } else {
        let front = ordered(pool.drop_last());
        front.insert(landing(front, pool.last().energy), pool.last())
    }
}

/// The test that an entry has the given energy.
pub open spec fn has_energy(energy: nat) -> spec_fn(SeedView) -> bool {
    |seed: SeedView| seed.energy == energy
}

/// The position of a string is the first place where it stands: no
/// entry before holds it, and it lies in the pool exactly if some entry
/// holds the string.
pub proof fn lemma_position(pool: Seq<SeedView>, value: Seq<char>)
    ensures
        0 <= position(pool, value) <= pool.len(),
        forall|i: int| 0 <= i < position(pool, value) ==> (#[trigger] pool[i]).value != value,
        position(pool, value) < pool.len() ==> pool[position(pool, value)].value == value,
        position(pool, value) < pool.len() <==> holds(pool, value),
    decreases pool.len(),
{
    if pool.len() > 0 && pool[0].value != value {
        let rest = pool.drop_first();
        lemma_position(rest, value);
        assert forall|i: int| 0 <= i < position(pool, value) implies (#[trigger] pool[i]).value
            != value by {
            if i > 0 {
                assert(rest[i - 1] == pool[i]);
            }
        }
        if position(rest, value) < rest.len() {
            assert(pool[position(pool, value)] == rest[position(rest, value)]);
        }
    }
}

/// Raising the energy of one string, or adding it, keeps the strings of a
/// pool apart.
pub proof fn lemma_bumped_distinct(pool: Seq<SeedView>, value: Seq<char>)
    requires
        distinct(pool),
    ensures
        distinct(bumped(pool, value)),
        holds(bumped(pool, value), value),
        bumped(pool, value).len() == if holds(pool, value) {
            pool.len()
        } else {
            pool.len() + 1
        },
{
    lemma_position(pool, value);
    let at = position(pool, value);
    let after = bumped(pool, value);
    if at < pool.len() {
        assert(after[at].value == value);
    } else {
        assert(after[pool.len() as int].value == value);
    }
}

/// Recording that a string led to new lines moves no entry, changes no
/// string and lowers no energy: the entry of that string gains one unit,
/// or is added with one unit, and every other entry stays as it is.
pub proof fn lemma_bumped_energy(pool: Seq<SeedView>, value: Seq<char>)
    ensures
        bumped(pool, value).len() >= pool.len(),
        forall|i: int|
            0 <= i < pool.len() ==> {
                &&& (#[trigger] bumped(pool, value)[i]).value == pool[i].value
                &&& bumped(pool, value)[i].energy >= pool[i].energy
            },
        forall|i: int|
            0 <= i < pool.len() && i != position(pool, value) ==> #[trigger] bumped(pool, value)[i]
                == pool[i],
        0 <= position(pool, value) < bumped(pool, value).len(),
        bumped(pool, value)[position(pool, value)].value == value,
        bumped(pool, value)[position(pool, value)].energy == if holds(pool, value) {
            pool[position(pool, value)].energy + 1
        } else {
            1
        },
{
    lemma_position(pool, value);
}

/// Gathering keeps what the pool held, in place, adds only fresh entries
/// without energy, and ends up holding each of the values. Where the
/// strings of the pool were apart, they still are.
pub proof fn lemma_gathered(pool: Seq<SeedView>, values: Seq<Seq<char>>)
    ensures
        gathered(pool, values).len() >= pool.len(),
        gathered(pool, values).take(pool.len() as int) == pool,
        forall|i: int|
            pool.len() <= i < gathered(pool, values).len() ==> (#[trigger] gathered(
                pool,
                values,
            )[i]).energy == 0,
        forall|k: int| 0 <= k < values.len() ==> holds(gathered(pool, values), #[trigger] values[k]),
        forall|i: int|
            pool.len() <= i < gathered(pool, values).len() ==> values.contains(
                (#[trigger] gathered(pool, values)[i]).value,
            ),
        distinct(pool) ==> distinct(gathered(pool, values)),
    decreases values.len(),
{
    let all = gathered(pool, values);
    if values.len() == 0 {
        assert(all.take(pool.len() as int) =~= pool);
    } else {
        let rest = values.drop_last();
        let earlier = gathered(pool, rest);
        lemma_gathered(pool, rest);
        assert(all.take(pool.len() as int) =~= earlier.take(pool.len() as int));
        assert forall|k: int| 0 <= k < values.len() implies holds(all, #[trigger] values[k]) by {
            if k < rest.len() {
                assert(holds(earlier, rest[k]));
                let i = choose|i: int| 0 <= i < earlier.len() && earlier[i].value == rest[k];
                assert(all[i].value == values[k]);
            } else if !holds(earlier, values.last()) {
                assert(all[earlier.len() as int].value == values[k]);
            }
        }
        assert forall|i: int| pool.len() <= i < all.len() implies values.contains(
            (#[trigger] all[i]).value,
        ) by {
            if i < earlier.len() {
                assert(rest.contains(earlier[i].value));
                let k = choose|k: int| 0 <= k < rest.len() && rest[k] == earlier[i].value;
                assert(values[k] == rest[k]);
            } else {
                assert(values[values.len() - 1] == all[i].value);
            }
        }
    }
}

/// A pool made anew holds each of its strings once and no energy at all.
pub proof fn lemma_reseeded(inputs: Seq<Seq<char>>, fresh: Seq<Seq<char>>)
    ensures
        distinct(reseeded(inputs, fresh)),
        ascending(reseeded(inputs, fresh)),
        forall|i: int|
            0 <= i < reseeded(inputs, fresh).len() ==> (#[trigger] reseeded(inputs, fresh)[i]).energy
                == 0,
        forall|k: int| 0 <= k < inputs.len() ==> holds(reseeded(inputs, fresh), #[trigger] inputs[k]),
        forall|k: int| 0 <= k < fresh.len() ==> holds(reseeded(inputs, fresh), #[trigger] fresh[k]),
{
    let logged = gathered(Seq::empty(), inputs);
    let all = reseeded(inputs, fresh);
    lemma_gathered(Seq::empty(), inputs);
    lemma_gathered(logged, fresh);
    assert forall|i: int| 0 <= i < all.len() implies (#[trigger] all[i]).energy == 0 by {
        if i < logged.len() {
            assert(all.take(logged.len() as int)[i] == logged[i]);
        }
    }
    assert forall|k: int| 0 <= k < inputs.len() implies holds(all, #[trigger] inputs[k]) by {
        assert(holds(logged, inputs[k]));
        let i = choose|i: int| 0 <= i < logged.len() && logged[i].value == inputs[k];
        assert(all.take(logged.len() as int)[i] == logged[i]);
        assert(all[i].value == inputs[k]);
    }
}

/// Where an entry lands, every entry behind has more energy and the
/// entry just before has no more.
pub proof fn lemma_landing_bounds(pool: Seq<SeedView>, energy: nat)
    ensures
        0 <= landing(pool, energy) <= pool.len(),
        forall|i: int| landing(pool, energy) <= i < pool.len() ==> pool[i].energy > energy,
        landing(pool, energy) > 0 ==> pool[landing(pool, energy) - 1].energy <= energy,
    decreases pool.len(),
{
    if pool.len() > 0 && pool.last().energy > energy {
        let front = pool.drop_last();
        lemma_landing_bounds(front, energy);
        assert forall|i: int| landing(pool, energy) <= i < pool.len() implies pool[i].energy
            > energy by {
            if i < front.len() {
                assert(front[i].energy > energy);
            }
        }
    }
}

/// Ordering keeps the length and the entries, and leaves the energies
/// ascending.
pub proof fn lemma_ordered(pool: Seq<SeedView>)
    ensures
        ordered(pool).len() == pool.len(),
        ordered(pool).to_multiset() == pool.to_multiset(),
        ascending(ordered(pool)),
    decreases pool.len(),
{
    broadcast use vstd::seq_lib::group_to_multiset_ensures;

    if pool.len() > 0 {
        let front = ordered(pool.drop_last());
        let last = pool.last();
        let at = landing(front, last.energy);
        lemma_ordered(pool.drop_last());
        lemma_landing_bounds(front, last.energy);
        let placed = front.insert(at, last);
        assert(ascending(placed)) by {
            assert forall|i: int, j: int| 0 <= i <= j < placed.len() implies placed[i].energy
                <= placed[j].energy by {
                if i < at && j > at {
                    assert(front[i].energy <= front[at - 1].energy);
                }
            }
        }
        assert(pool =~= pool.drop_last().push(last));
        vstd::seq_lib::to_multiset_insert(front, at, last);
        vstd::seq_lib::to_multiset_build(pool.drop_last(), last);
    } else {
        assert(ordered(pool) =~= pool);
    }
}

/// A pool whose energies already ascend is left as it is.
pub proof fn lemma_ordered_fixpoint(pool: Seq<SeedView>)
    requires
        ascending(pool),
    ensures
        ordered(pool) == pool,
    decreases pool.len(),
{
    if pool.len() > 0 {
        let front = pool.drop_last();
        lemma_ordered_fixpoint(front);
        assert(front.insert(front.len() as int, pool.last()) =~= pool);
    }
}

/// Ordering keeps the strings of a pool apart.
pub proof fn lemma_ordered_distinct(pool: Seq<SeedView>)
    requires
        distinct(pool),
    ensures
        distinct(ordered(pool)),
    decreases pool.len(),
{
    broadcast use vstd::seq_lib::group_to_multiset_ensures;

    if pool.len() > 0 {
        let rest = pool.drop_last();
        let front = ordered(rest);
        let last = pool.last();
        let at = landing(front, last.energy);
        assert(distinct(rest));
        lemma_ordered_distinct(rest);
        lemma_ordered(rest);
        lemma_landing_bounds(front, last.energy);
        assert forall|i: int| 0 <= i < front.len() implies #[trigger] front[i].value
            != last.value by {
            assert(front.contains(front[i]));
            assert(front.to_multiset().count(front[i]) > 0);
            assert(rest.contains(front[i]));
            let k = choose|k: int| 0 <= k < rest.len() && rest[k] == front[i];
            assert(pool[k] == rest[k]);
        }
    }
}

/// A sequence of which no entry passes a test has nothing left after
/// filtering.
pub proof fn lemma_filter_none(pool: Seq<SeedView>, test: spec_fn(SeedView) -> bool)
    requires
        forall|i: int| 0 <= i < pool.len() ==> !test(#[trigger] pool[i]),
    ensures
        pool.filter(test) == Seq::<SeedView>::empty(),
    decreases pool.len(),
{
    reveal(Seq::filter);
    if pool.len() > 0 {
        let rest = pool.drop_last();
        assert forall|i: int| 0 <= i < rest.len() implies !test(#[trigger] rest[i]) by {
            assert(rest[i] == pool[i]);
        }
        lemma_filter_none(rest, test);
        assert(!test(pool[pool.len() - 1]));
    } else {
        assert(pool =~= Seq::<SeedView>::empty());
    }
}

/// Ordering is stable: the entries of any one energy stand in the same
/// order after it as before.
pub proof fn lemma_ordered_stable(pool: Seq<SeedView>, energy: nat)
    ensures
        ordered(pool).filter(has_energy(energy)) == pool.filter(has_energy(energy)),
    decreases pool.len(),
{
    reveal(Seq::filter);
    if pool.len() > 0 {
        let test = has_energy(energy);
        let rest = pool.drop_last();
        let last = pool.last();
        let front = ordered(rest);
        let at = landing(front, last.energy);
        lemma_ordered_stable(rest, energy);
        lemma_ordered(rest);
        lemma_landing_bounds(front, last.energy);
        let head = front.subrange(0, at);
        let tail = front.subrange(at, front.len() as int);
        assert(front =~= head + tail);
        Seq::filter_distributes_over_add(head, tail, test);
        Seq::filter_distributes_over_add(head.push(last), tail, test);
        assert(head.push(last).drop_last() =~= head);
        if last.energy == energy {
            assert forall|i: int| 0 <= i < tail.len() implies !test(#[trigger] tail[i]) by {
                assert(tail[i] == front[at + i]);
            }
            lemma_filter_none(tail, test);
            assert(head.filter(test) + Seq::<SeedView>::empty() =~= head.filter(test));
            assert(head.filter(test).push(last) + Seq::<SeedView>::empty() =~= head.filter(
                test,
            ).push(last));
        }
    }
}

/// Where `value` first stands in the pool; the length of the pool if it
/// stands nowhere.
pub fn find_seed(pool: &Vec<Seed>, value: &String) -> (at: usize)
    ensures
        at == position(pool_view(pool@), value@),
{
    let mut at: usize = 0;
    while at < pool.len() && pool[at].value != *value
        invariant
            at <= pool@.len(),
            forall|i: int| 0 <= i < at ==> (#[trigger] pool@[i]).value@ != value@,
        decreases pool@.len() - at,
    {
        at = at + 1;
    }
    proof {
        let view = pool_view(pool@);
        lemma_position(view, value@);
        let first = position(view, value@);
        if first < at {
            assert(view[first].value == pool@[first].value@);
        }
        if at < first {
            assert(view[at as int].value == pool@[at as int].value@);
        }
    }
    at
}

/// Whether the energy of `value` can still be raised: see `can_raise`.
pub fn may_raise(pool: &Vec<Seed>, value: &String) -> (may: bool)
    ensures
        may == can_raise(pool_view(pool@), value@),
{
    proof {
        lemma_position(pool_view(pool@), value@);
    }
    let at: usize = find_seed(pool, value);
    at == pool.len() || pool[at].energy < u32::MAX
}

/// Adds a fresh seed for each of `values` that the pool does not hold yet.
pub fn gather(pool: &mut Vec<Seed>, values: &Vec<String>)
    ensures
        pool_view(final(pool)@) == gathered(pool_view(old(pool)@), texts(values@)),
{
    let mut i: usize = 0;
    while i < values.len()
        invariant
            i <= values@.len(),
            pool_view(pool@) == gathered(pool_view(old(pool)@), texts(values@).take(i as int)),
        decreases values@.len() - i,
    {
        proof {
            let upto = texts(values@).take(i + 1);
            assert(upto.drop_last() =~= texts(values@).take(i as int));
            assert(upto.last() == values@[i as int]@);
            lemma_position(pool_view(pool@), values@[i as int]@);
        }
        let ghost before = pool_view(pool@);
        let at: usize = find_seed(pool, &values[i]);
        if at == pool.len() {
            pool.push(Seed::new(values[i].clone()));
            assert(pool_view(pool@) =~= before.push(
                SeedView { value: values@[i as int]@, energy: 0 },
            ));
        }
        i = i + 1;
    }
    proof {
        assert(texts(values@).take(i as int) =~= texts(values@));
    }
}

/// Puts the pool in ascending order of energy. Entries of equal energy
/// keep the order in which they stood.
pub fn sort_by_energy(pool: &mut Vec<Seed>)
    ensures
        pool_view(final(pool)@) == ordered(pool_view(old(pool)@)),
{
    let mut i: usize = 0;
    while i < pool.len()
        invariant
            i <= pool.len(),
            pool.len() == old(pool).len(),
            pool_view(pool@.take(i as int)) == ordered(pool_view(old(pool)@.take(i as int))),
            pool@.skip(i as int) == old(pool)@.skip(i as int),
        decreases pool.len() - i,
    {
        let ghost before = pool@;
        let ghost front = pool_view(before.take(i as int));
        let seed = pool.remove(i);
        assert(seed == old(pool)@[i as int]) by {
            assert(before.skip(i as int)[0] == old(pool)@.skip(i as int)[0]);
        }
        assert(pool@.take(i as int) =~= before.take(i as int));
        assert(front.take(i as int) =~= front);
        let mut j: usize = i;
        while j > 0 && pool[j - 1].energy > seed.energy
            invariant
                j <= i,
                i <= pool.len(),
                front == pool_view(pool@.take(i as int)),
                landing(front, seed@.energy) == landing(front.take(j as int), seed@.energy),
            decreases j,
        {
            assert(front.take(j as int).last() == pool@[j - 1]@);
            assert(front.take(j as int).drop_last() =~= front.take(j - 1));
            j = j - 1;
        }
        proof {
            if j > 0 {
                assert(front.take(j as int).last() == pool@[j - 1]@);
            }
            assert(landing(front, seed@.energy) == j);
        }
        pool.insert(j, seed);
        proof {
            let upto = old(pool)@.take(i + 1);
            assert(upto.drop_last() =~= old(pool)@.take(i as int));
            assert(pool_view(upto).drop_last() =~= pool_view(old(pool)@.take(i as int)));
            assert(pool_view(upto).last() == seed@);
            assert(pool_view(pool@.take(i + 1)) =~= front.insert(j as int, seed@));
            assert(pool@.skip(i + 1) =~= old(pool)@.skip(i + 1)) by {
                let rest = pool@.skip(i + 1);
                assert forall|k: int| 0 <= k < rest.len() implies #[trigger] rest[k] == old(
                    pool,
                )@.skip(i + 1)[k] by {
                    assert(before.skip(i as int)[k + 1] == old(pool)@.skip(i as int)[k + 1]);
                }
            }
        }
        i = i + 1;
    }
    proof {
        assert(pool@.take(i as int) =~= pool@);
        assert(old(pool)@.take(i as int) =~= old(pool)@);
    }
}

/// Whether the energies of the pool ascend.
pub fn is_ascending(pool: &Vec<Seed>) -> (ascends: bool)
    ensures
        ascends == ascending(pool_view(pool@)),
{
    let ghost view = pool_view(pool@);
    let mut i: usize = 1;
    while i < pool.len()
        invariant
            1 <= i,
            view == pool_view(pool@),
            forall|a: int, b: int| 0 <= a <= b < i && b < view.len() ==> view[a].energy <= view[b].energy,
        decreases pool@.len() - i,
    {
        if pool[i - 1].energy > pool[i].energy {
            assert(view[i - 1].energy > view[i as int].energy);
            return false;
        }
        assert forall|a: int, b: int| 0 <= a <= b < i + 1 && b < view.len() implies view[a].energy
            <= view[b].energy by {
            if b == i && a < i {
                assert(view[a].energy <= view[i - 1].energy);
            }
        }
        i = i + 1;
    }
    true
}

/// Whether no two entries of the pool hold the same string.
pub fn is_distinct(pool: &Vec<Seed>) -> (apart: bool)
    ensures
        apart == distinct(pool_view(pool@)),
{
    let ghost view = pool_view(pool@);
    let mut j: usize = 0;
    while j < pool.len()
        invariant
            view == pool_view(pool@),
            forall|a: int, b: int| 0 <= a < b < j && b < view.len() ==> view[a].value != view[b].value,
        decreases pool@.len() - j,
    {
        let mut i: usize = 0;
        while i < j
            invariant
                i <= j < pool@.len(),
                view == pool_view(pool@),
                forall|a: int| 0 <= a < i ==> view[a].value != view[j as int].value,
            decreases j - i,
        {
            if pool[i].value == pool[j].value {
                assert(view[i as int].value == view[j as int].value);
                return false;
            }
            i = i + 1;
        }
        j = j + 1;
    }
    true
}

} // verus!
