use vstd::prelude::*;

verus! {

/// Writes an encoded snapshot into the prefix of a storage region.
///
/// The bytes past `encoded.len()` are left as they were.
pub fn write_prefix(encoded: &[u8], region: &mut [u8])
    requires
        encoded@.len() <= old(region)@.len(),
    ensures
        final(region)@.len() == old(region)@.len(),
        final(region)@.subrange(0, encoded@.len() as int) == encoded@,
        final(region)@.subrange(encoded@.len() as int, old(region)@.len() as int)
            == old(region)@.subrange(encoded@.len() as int, old(region)@.len() as int),
{
    let n = encoded.len();
    let mut i: usize = 0;
    while i < n
        invariant
            n == encoded@.len(),
            n <= old(region)@.len(),
            i <= n,
            region@.len() == old(region)@.len(),
            forall|k: int| 0 <= k < i ==> region@[k] == encoded@[k],
            forall|k: int| n <= k < region@.len() ==> region@[k] == old(region)@[k],
        decreases n - i,
    {
        region[i] = encoded[i];
        i = i + 1;
    }
    assert(region@.subrange(0, n as int) =~= encoded@);
    assert(region@.subrange(n as int, region@.len() as int)
        =~= old(region)@.subrange(n as int, old(region)@.len() as int));
}

} // verus!
