//! How a table of cells hands out its slots.
use vstd::prelude::*;

verus! {

/// The first place that is not taken, looking around from `start`, after
/// `steps`.
pub open spec fn next_free(taken: Seq<bool>, start: int, steps: int) -> Option<int>
    decreases taken.len() - steps,
{
    if steps >= taken.len() {
        None
    } else {
        let place = (start + steps) % (taken.len() as int);
        if !taken[place] {
            Some(place)
        } else {
            next_free(taken, start, steps + 1)
        }
    }
}

/// No place is free only where all are taken, and a free place is not taken.
pub proof fn lemma_next_free(taken: Seq<bool>, start: int, steps: int)
    requires
        0 <= start < taken.len(),
        0 <= steps <= taken.len(),
    ensures
        next_free(taken, start, steps) matches Some(place) ==> 0 <= place < taken.len()
            && !taken[place],
        next_free(taken, start, steps) is None ==> forall|e: int|
            steps <= e < taken.len() ==> #[trigger] taken[(start + e) % (taken.len() as int)],
    decreases taken.len() - steps,
{
    if steps < taken.len() {
        let place = (start + steps) % (taken.len() as int);
        vstd::arithmetic::div_mod::lemma_mod_bound(start + steps, taken.len() as int);
        if taken[place] {
            lemma_next_free(taken, start, steps + 1);
        }
    }
}

/// A place is found exactly where one is not taken.
pub proof fn lemma_free_exists(taken: Seq<bool>, start: int)
    requires
        0 <= start < taken.len(),
    ensures
        next_free(taken, start, 0) is None <==> forall|i: int|
            0 <= i < taken.len() ==> #[trigger] taken[i],
{
    lemma_next_free(taken, start, 0);
    if next_free(taken, start, 0) is None {
        assert forall|i: int| 0 <= i < taken.len() implies #[trigger] taken[i] by {
            crate::probe::lemma_steps(start, i, taken.len() as int);
            let e = crate::probe::steps_to(start, i, taken.len() as int);
            assert(taken[(start + e) % (taken.len() as int)]);
        }
    }
}

/// The generation of a slot after it was taken again. It is never zero.
pub open spec fn next_generation(generation: u32) -> u32 {
    if generation == u32::MAX {
        1
    } else {
        (generation + 1) as u32
    }
}

/// The generation of a slot after it was taken again.
pub fn next_generation_of(generation: u32) -> (next: u32)
    ensures
        next == next_generation(generation),
{
    if generation == u32::MAX {
        1
    } else {
        generation + 1
    }
}

} // verus!
