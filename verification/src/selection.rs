//! What is left of a sequence when some of its items are taken out.
use vstd::prelude::*;

verus! {

/// True when these are places of a sequence of this length, from the front to the
/// back, none twice.
pub open spec fn ascending(places: Seq<int>, len: int) -> bool {
    &&& forall|i: int| 0 <= i < places.len() ==> 0 <= #[trigger] places[i] < len
    &&& forall|i: int, j: int|
        0 <= i < j < places.len() ==> #[trigger] places[i] < #[trigger] places[j]
}

/// The places at which a sequence has items that are wanted.
pub open spec fn places_where<A>(all: Seq<A>, is_wanted: spec_fn(A) -> bool) -> Seq<int>
    decreases all.len(),
{
    if all.len() == 0 {
        Seq::empty()
    } else if is_wanted(all.last()) {
        places_where(all.drop_last(), is_wanted).push(all.len() - 1)
    } else {
        places_where(all.drop_last(), is_wanted)
    }
}

/// The places at which a sequence has wanted items ascend, and are all of them.
pub proof fn lemma_places<A>(all: Seq<A>, is_wanted: spec_fn(A) -> bool)
    ensures
        ascending(places_where(all, is_wanted), all.len() as int),
        forall|p: int|
            0 <= p < all.len() ==> (places_where(all, is_wanted).contains(p) <==> is_wanted(
                #[trigger] all[p],
            )),
    decreases all.len(),
{
    if all.len() > 0 {
        let shorter = all.drop_last();
        let before = places_where(shorter, is_wanted);
        let places = places_where(all, is_wanted);
        lemma_places(shorter, is_wanted);
        assert forall|p: int| 0 <= p < all.len() implies (places.contains(p) <==> is_wanted(
            #[trigger] all[p],
        )) by {
            if p < all.len() - 1 {
                assert(shorter[p] == all[p]);
                if before.contains(p) {
                    let i = choose|i: int| 0 <= i < before.len() && before[i] == p;
                    assert(places[i] == p);
                }
                if places.contains(p) {
                    let i = choose|i: int| 0 <= i < places.len() && places[i] == p;
                    if i < before.len() {
                        assert(before[i] == p);
                    }
                }
            } else {
                if is_wanted(all[p]) {
                    assert(places[places.len() - 1] == p);
                }
                if places.contains(p) && !is_wanted(all[p]) {
                    let i = choose|i: int| 0 <= i < places.len() && places[i] == p;
                    assert(before[i] == p);
                }
            }
        }
    }
}

/// A filtered sequence has the items at the places of the wanted ones, in order.
pub proof fn lemma_filter_places<A>(all: Seq<A>, is_wanted: spec_fn(A) -> bool)
    ensures
        all.filter(is_wanted).len() == places_where(all, is_wanted).len(),
        forall|i: int|
            0 <= i < all.filter(is_wanted).len() ==> #[trigger] all.filter(is_wanted)[i]
                == all[places_where(all, is_wanted)[i]],
    decreases all.len(),
{
    reveal(Seq::filter);
    if all.len() > 0 {
        let shorter = all.drop_last();
        lemma_filter_places(shorter, is_wanted);
        lemma_places(shorter, is_wanted);
        let places = places_where(all, is_wanted);
        assert forall|i: int| 0 <= i < all.filter(is_wanted).len() implies #[trigger] all.filter(
            is_wanted,
        )[i] == all[places[i]] by {
            if i < shorter.filter(is_wanted).len() {
                assert(shorter.filter(is_wanted)[i] == shorter[places_where(shorter, is_wanted)[i]]);
            }
        }
    }
}

/// Filtering two sequences one behind the other is filtering the whole.
pub proof fn lemma_filter_joined<A>(one: Seq<A>, other: Seq<A>, is_wanted: spec_fn(A) -> bool)
    ensures
        (one + other).filter(is_wanted) == one.filter(is_wanted) + other.filter(is_wanted),
    decreases other.len(),
{
    reveal(Seq::filter);
    if other.len() == 0 {
        assert(one + other =~= one);
        assert(one.filter(is_wanted) + other.filter(is_wanted) =~= one.filter(is_wanted));
    } else {
        assert((one + other).drop_last() =~= one + other.drop_last());
        lemma_filter_joined(one, other.drop_last(), is_wanted);
        assert((one + other).filter(is_wanted) =~= one.filter(is_wanted) + other.filter(is_wanted));
    }
}

/// What the items of a sequence stand for, in order, where they stand for something.
pub open spec fn meant<A, B>(all: Seq<A>, meaning: spec_fn(A) -> Option<B>) -> Seq<B>
    decreases all.len(),
{
    if all.len() == 0 {
        Seq::empty()
    } else {
        match meaning(all.last()) {
            Some(item) => meant(all.drop_last(), meaning).push(item),
            None => meant(all.drop_last(), meaning),
        }
    }
}

/// The places of the items that stand for something.
pub open spec fn meant_at<A, B>(all: Seq<A>, meaning: spec_fn(A) -> Option<B>) -> Seq<int> {
    places_where(all, |item: A| meaning(item) is Some)
}

/// What items stand for is what those at the meaningful places stand for, one by one.
pub proof fn lemma_meant<A, B>(all: Seq<A>, meaning: spec_fn(A) -> Option<B>)
    ensures
        ascending(meant_at(all, meaning), all.len() as int),
        meant(all, meaning).len() == meant_at(all, meaning).len(),
        forall|i: int|
            0 <= i < meant_at(all, meaning).len() ==> meaning(
                all[#[trigger] meant_at(all, meaning)[i]],
            ) == Some(meant(all, meaning)[i]),
        forall|p: int|
            0 <= p < all.len() ==> (meaning(#[trigger] all[p]) is Some <==> meant_at(
                all,
                meaning,
            ).contains(p)),
    decreases all.len(),
{
    let is_wanted = |item: A| meaning(item) is Some;
    lemma_places(all, is_wanted);
    assert forall|p: int| 0 <= p < all.len() implies (meaning(#[trigger] all[p]) is Some
        <==> meant_at(all, meaning).contains(p)) by {
        assert(is_wanted(all[p]) == (meaning(all[p]) is Some));
    }
    if all.len() > 0 {
        let shorter = all.drop_last();
        lemma_meant(shorter, meaning);
        let before = meant_at(shorter, meaning);
        let places = meant_at(all, meaning);
        assert(is_wanted(all.last()) == (meaning(all.last()) is Some));
        assert forall|i: int| 0 <= i < places.len() implies meaning(all[#[trigger] places[i]])
            == Some(meant(all, meaning)[i]) by {
            if i < before.len() {
                assert(places[i] == before[i]);
                assert(meaning(shorter[before[i]]) == Some(meant(shorter, meaning)[i]));
            }
        }
    }
}

/// There are no more places than items.
pub proof fn lemma_no_more_places(places: Seq<int>, len: int)
    requires
        ascending(places, len),
        0 <= len,
    ensures
        places.len() <= len,
    decreases places.len(),
{
    if places.len() > 0 {
        let last = places.last();
        assert(ascending(places.drop_last(), last)) by {
            assert forall|i: int| 0 <= i < places.len() - 1 implies 0
                <= #[trigger] places.drop_last()[i] < last by {
                assert(places[i] < places[places.len() - 1]);
            }
        }
        assert(0 <= places[places.len() - 1] < len);
        lemma_no_more_places(places.drop_last(), last);
    }
}

} // verus!
