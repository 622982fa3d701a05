//! Information-flow labels: a value wrapped under a label, and the
//! explicit, audited transition that releases it.

use vstd::prelude::*;

use core::marker::PhantomData;

verus! {

/// A value tagged with the label `L` (a zero-sized marker type).
pub struct Labeled<L, T> {
    value: T,
    label: PhantomData<L>,
}

impl<L, T> Labeled<L, T> {
    /// The wrapped value.
    pub closed spec fn inner(self) -> T {
        self.value
    }

    /// Wraps `value` under the label `L`.
    pub fn new(value: T) -> (r: Self)
        ensures
            r.inner() == value,
    {
        Labeled { value, label: PhantomData }
    }

    /// Unwraps the value, discarding the label.
    pub fn into_inner(self) -> (r: T)
        ensures
            r == self.inner(),
    {
        self.value
    }
}

/// The label of untrusted input.
pub struct TaintedLabel;

/// The label of secret data.
pub struct SecretLabel;

pub type Tainted<T> = Labeled<TaintedLabel, T>;

pub type Secret<T> = Labeled<SecretLabel, T>;

/// Wraps `value` as tainted.
#[allow(non_snake_case)]
pub fn Tainted<T>(value: T) -> (r: Tainted<T>)
    ensures
        r.inner() == value,
{
    Labeled::new(value)
}

/// Wraps `value` as secret.
#[allow(non_snake_case)]
pub fn Secret<T>(value: T) -> (r: Secret<T>)
    ensures
        r.inner() == value,
{
    Labeled::new(value)
}

/// Declassifies labelled data. `audit_tag` names why it is trusted, for
/// human auditing only; it does not change the result.
pub fn trust<L, T>(value: Labeled<L, T>, audit_tag: &'static str) -> (r: T)
    ensures
        r == value.inner(),
{
    value.into_inner()
}

} // verus!
