use vstd::prelude::*;

verus! {

/// Relies on `rand::random`: a value drawn from the standard distribution of
/// `T` with the thread-local generator. Nothing is known of the value.
pub assume_specification<T>[ rand::random::<T> ]() -> (r: T)
    where
        rand::distributions::Standard: rand::distributions::Distribution<T>,
;

/// A uniformly drawn index below `n`.
pub fn random_index(n: usize) -> (r: usize)
    requires
        n > 0,
    ensures
        r < n,
{
    let x: usize = rand::random::<usize>();
    x % n
}

/// A fair coin.
pub fn coin() -> bool {
    rand::random::<bool>()
}

} // verus!
