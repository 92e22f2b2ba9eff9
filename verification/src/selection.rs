//! Selections from a sequence that keep its order.
use vstd::prelude::*;

verus! {

/// Whether `picked` are the items of `all` at these places, each place later than the
/// one before.
pub open spec fn stands_in<T>(picked: Seq<T>, all: Seq<T>, places: Seq<int>) -> bool {
    &&& places.len() == picked.len()
    &&& forall|i: int|
        0 <= i < places.len() ==> 0 <= #[trigger] places[i] < all.len() && picked[i] == all[places[i]]
    &&& forall|i: int, j: int|
        0 <= i < j < places.len() ==> #[trigger] places[i] < #[trigger] places[j]
}

/// Whether `picked` is some of `all`, in the same order and nothing of it twice.
pub open spec fn selected<T>(picked: Seq<T>, all: Seq<T>) -> bool {
    exists|places: Seq<int>| stands_in(picked, all, places)
}

/// To pick nothing is a selection.
pub proof fn lemma_nothing<T>(all: Seq<T>)
    ensures
        selected(Seq::<T>::empty(), all),
{
    assert(stands_in(Seq::<T>::empty(), all, Seq::empty()));
}

/// A selection may pass over the first item.
pub proof fn lemma_skipped<T>(picked: Seq<T>, all: Seq<T>)
    requires
        all.len() > 0,
        selected(picked, all.drop_first()),
    ensures
        selected(picked, all),
{
    let later = choose|places: Seq<int>| stands_in(picked, all.drop_first(), places);
    let places = Seq::new(later.len(), |i: int| later[i] + 1);
    assert forall|i: int| 0 <= i < places.len() implies 0 <= #[trigger] places[i] < all.len()
        && picked[i] == all[places[i]] by {
        assert(0 <= later[i] < all.drop_first().len());
    }
    assert forall|i: int, j: int| 0 <= i < j < places.len() implies #[trigger] places[i]
        < #[trigger] places[j] by {
        assert(later[i] < later[j]);
    }
    assert(stands_in(picked, all, places));
}

/// A selection may begin with the first item.
pub proof fn lemma_taken<T>(picked: Seq<T>, all: Seq<T>)
    requires
        picked.len() > 0,
        all.len() > 0,
        picked[0] == all[0],
        selected(picked.drop_first(), all.drop_first()),
    ensures
        selected(picked, all),
{
    let later = choose|places: Seq<int>|
        stands_in(picked.drop_first(), all.drop_first(), places);
    let places = Seq::new(
        picked.len(),
        |i: int|
            if i == 0 {
                0
            } else {
                later[i - 1] + 1
            },
    );
    assert forall|i: int| 0 <= i < places.len() implies 0 <= #[trigger] places[i] < all.len()
        && picked[i] == all[places[i]] by {
        if i > 0 {
            assert(0 <= later[i - 1] < all.drop_first().len());
            assert(picked[i] == picked.drop_first()[i - 1]);
        }
    }
    assert forall|i: int, j: int| 0 <= i < j < places.len() implies #[trigger] places[i]
        < #[trigger] places[j] by {
        assert(0 <= later[j - 1]);
        if i > 0 {
            assert(later[i - 1] < later[j - 1]);
        }
    }
    assert(stands_in(picked, all, places));
}

} // verus!
