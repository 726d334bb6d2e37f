use vstd::prelude::*;

verus! {

/// A similarity kernel over vectors of type `V`.
///
/// The score is an order key: a larger value means two vectors are closer.
/// A kernel whose natural result is a real number maps it to an integer by a
/// strictly monotone map, so that the graph's decisions ("is this neighbour
/// strictly closer?") are the same on the key as on the real value.
pub trait Distance<V> {
    /// The score of `a` against `b`; it depends on the two vectors alone.
    spec fn similarity(a: V, b: V) -> i64;

    fn calculate(a: &V, b: &V) -> (r: i64)
        ensures
            r == Self::similarity(*a, *b),
    ;
}

/// The cosine kernel: dot product divided by the product of the two L2
/// norms, and zero when either norm is zero.
///
/// Its arithmetic is floating point, so its `Distance` impl is supplied by the
/// float-aware code that owns the concrete vector type.
pub struct CosineSimilarity;

} // verus!
