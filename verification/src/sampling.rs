use vstd::prelude::*;

verus! {

/// Relies on rand::seq::index::sample: it returns exactly `amount` distinct
/// indices drawn uniformly at random from `0..length`, and panics only when
/// `amount > length`.  Nothing is promised about which indices come back,
/// only that they are distinct, in range, and `amount` many.
#[verifier::external_body]
pub(crate) fn sample_indices(length: usize, amount: usize) -> (r: Vec<usize>)
    requires
        amount <= length,
    ensures
        r@.len() == amount,
        forall|i: int| 0 <= i < r@.len() ==> #[trigger] r@[i] < length,
        forall|i: int, j: int|
            #![trigger r@[i], r@[j]]
            0 <= i < j < r@.len() ==> r@[i] != r@[j],
{
    let mut rng = rand::thread_rng();
    rand::seq::index::sample(&mut rng, length, amount).into_vec()
}

} // verus!
