//! Numbers that are not zero.

use vstd::prelude::*;

verus! {

/// A number that is not zero; an absent one takes no room of its own.
#[derive(Clone, Copy)]
pub struct NonZeroU64 {
    value: u64,
}

impl View for NonZeroU64 {
    type V = u64;

    closed spec fn view(&self) -> u64 {
        self.value
    }
}

impl NonZeroU64 {
    #[verifier::type_invariant]
    spec fn not_zero(self) -> bool {
        self.value != 0
    }

    /// The number `value`, unless it is zero.
    pub fn new(value: u64) -> (r: Option<NonZeroU64>)
        ensures
            match r {
                Some(n) => n@ == value && value != 0,
                None => value == 0,
            },
    {
        if value == 0 {
            None
        } else {
            Some(NonZeroU64 { value })
        }
    }

    /// The number.
    pub fn get(self) -> (r: u64)
        ensures
            r == self@,
            r != 0,
    {
        proof {
            use_type_invariant(self);
        }
        self.value
    }
}

/// A number is all that there is to it.
pub proof fn lemma_nonzero_equal(a: NonZeroU64, b: NonZeroU64)
    requires
        a@ == b@,
    ensures
        a == b,
{
}

/// The number where there is one, and zero where there is none.
pub open spec fn or_zero(n: Option<NonZeroU64>) -> u64 {
    match n {
        Some(n) => n@,
        None => 0,
    }
}

/// The length that `n` holds, if any.
pub open spec fn length_of(n: Option<NonZeroU64>) -> Option<nat> {
    match n {
        Some(n) => Some(n@ as nat),
        None => None,
    }
}

} // verus!
