//! Keys without the prefix that they share with the low key of their node.

use vstd::prelude::*;

verus! {

/// The empty key.
pub fn empty() -> (r: &'static [u8])
    ensures
        r@ == Seq::<u8>::empty(),
{
    let r: &'static [u8] = &[];
    assert(r@ =~= Seq::<u8>::empty());
    r
}

/// A key that was stored without `old_prefix`, to be stored without the first
/// `new_prefix_length` bytes.
pub fn reencode(
    old_prefix: &[u8],
    old_encoded_key: &[u8],
    new_prefix_length: usize,
) -> (r: Vec<u8>)
    ensures
        r@ == if new_prefix_length <= old_prefix@.len() + old_encoded_key@.len() {
            (old_prefix@ + old_encoded_key@).skip(new_prefix_length as int)
        } else {
            Seq::empty()
        },
{
    let mut r: Vec<u8> = Vec::new();
    if new_prefix_length <= old_prefix.len() {
        r.extend_from_slice(&old_prefix[new_prefix_length..old_prefix.len()]);
        r.extend_from_slice(old_encoded_key);
        assert(r@ =~= (old_prefix@ + old_encoded_key@).skip(new_prefix_length as int));
    } else if new_prefix_length - old_prefix.len() <= old_encoded_key.len() {
        let from = new_prefix_length - old_prefix.len();
        r.extend_from_slice(&old_encoded_key[from..old_encoded_key.len()]);
        assert(r@ =~= (old_prefix@ + old_encoded_key@).skip(new_prefix_length as int));
    }
    r
}

/// The whole key that was stored without `old_prefix`.
pub fn decode(old_prefix: &[u8], old_encoded_key: &[u8]) -> (r: Vec<u8>)
    ensures
        r@ == old_prefix@ + old_encoded_key@,
{
    let mut decoded_key: Vec<u8> = Vec::new();
    decoded_key.extend_from_slice(old_prefix);
    decoded_key.extend_from_slice(old_encoded_key);
    assert(decoded_key@ =~= old_prefix@ + old_encoded_key@);
    decoded_key
}

} // verus!
