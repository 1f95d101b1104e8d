use vstd::prelude::*;

verus! {

/// Relies on `rand::seq::index::sample` (with `rand::thread_rng`): it returns
/// exactly `amount` distinct indices, each below `length`, and panics only when
/// `amount > length`.
#[verifier::external_body]
pub(crate) fn sample_indices(length: usize, amount: usize) -> (r: Vec<usize>)
    requires
        amount <= length,
    ensures
        r@.len() == amount,
        r@.no_duplicates(),
        forall|i: int| 0 <= i < r@.len() ==> #[trigger] r@[i] < length,
{
    let mut rng = rand::thread_rng();
    rand::seq::index::sample(&mut rng, length, amount).into_vec()
}

/// Relies on `rand::seq::IteratorRandom::choose_multiple` (with `rand::thread_rng`):
/// it keeps `amount` of the items, or all of them when there are fewer, and takes
/// each item of the input at most once.
#[verifier::external_body]
pub(crate) fn choose_positions(items: Vec<(usize, usize)>, amount: usize) -> (r: Vec<(usize, usize)>)
    ensures
        r@.len() == if amount <= items@.len() {
            amount as int
        } else {
            items@.len() as int
        },
        forall|i: int| 0 <= i < r@.len() ==> items@.contains(#[trigger] r@[i]),
        items@.no_duplicates() ==> r@.no_duplicates(),
{
    let mut rng = rand::thread_rng();
    rand::seq::IteratorRandom::choose_multiple(items.into_iter(), &mut rng, amount)
}

} // verus!
