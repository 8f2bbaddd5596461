//! The values of cells.

use vstd::prelude::*;
use crate::error::Error;

verus! {

/// A value that may not be known yet. Key generation never knows a witness;
/// fixed cells must be known when they are assigned.
#[derive(Clone, Copy, Debug, PartialEq, Eq)]
pub struct Value<V> {
    pub inner: Option<V>,
}

impl<V> Value<V> {
    /// A value that is not known.
    pub fn unknown() -> (v: Self)
        ensures
            v.inner is None,
    {
        Value { inner: None }
    }

    /// The known value `value`.
    pub fn known(value: V) -> (v: Self)
        ensures
            v.inner == Some(value),
    {
        Value { inner: Some(value) }
    }

    /// What `assign` returns: the value when it is known, `Synthesis` otherwise.
    pub open spec fn spec_assign(self) -> Result<V, Error> {
        match self.inner {
            Some(v) => Ok(v),
            None => Err(Error::Synthesis),
        }
    }

    /// Takes the value out for storage. Fails with `Synthesis` exactly when the
    /// value is unknown.
    pub fn assign(self) -> (r: Result<V, Error>)
        ensures
            r == self.spec_assign(),
    {
        match self.inner {
            Some(v) => Ok(v),
            None => Err(Error::Synthesis),
        }
    }

    /// Whether the value is known.
    pub fn is_known(&self) -> (b: bool)
        ensures
            b == self.inner.is_some(),
    {
        self.inner.is_some()
    }
}

/// A field element as it is stored in a fixed column: zero, a plain element, or
/// a fraction `numerator / denominator` whose inversion is deferred.
#[derive(Clone, Copy, Debug, PartialEq, Eq)]
pub enum Assigned<F> {
    /// The field element zero.
    Zero,
    /// A plain field element.
    Trivial(F),
    /// A numerator and a denominator.
    Rational(F, F),
}

} // verus!
