//! A value paired with the byte range it was read from.

use core::ops::Range;
use vstd::prelude::*;

verus! {

/// A piece of data together with its location in a source buffer.
///
/// The location is metadata: it identifies where the value came from, and
/// operations on the pair act on the inner value alone.
#[derive(Debug)]
pub struct EasyLocated<X> {
    pub inner: X,
    pub loc: Range<usize>,
}

impl<X: Clone> Clone for EasyLocated<X> {
    fn clone(&self) -> (r: Self)
        ensures
            r.loc == self.loc,
            cloned::<X>(self.inner, r.inner),
    {
        EasyLocated {
            inner: self.inner.clone(),
            loc: Range { start: self.loc.start, end: self.loc.end },
        }
    }
}

impl<X> EasyLocated<X> {
    /// Pairs a value with a byte range.
    pub fn new(x: X, loc: Range<usize>) -> (r: Self)
        ensures
            r.inner == x,
            r.loc == loc,
    {
        Self { inner: x, loc }
    }

    /// The byte range the value was read from.
    pub fn location(&self) -> (r: &Range<usize>)
        ensures
            *r == self.loc,
    {
        &self.loc
    }

    /// A reference to the inner value.
    pub fn value(&self) -> (r: &X)
        ensures
            *r == self.inner,
    {
        &self.inner
    }

    /// Discards the location and returns the inner value.
    pub fn into_inner(self) -> (r: X)
        ensures
            r == self.inner,
    {
        self.inner
    }

    /// Applies a function to the inner value, keeping the location.
    pub fn map<Y, F: FnOnce(X) -> Y>(self, f: F) -> (r: EasyLocated<Y>)
        requires
            call_requires(f, (self.inner,)),
        ensures
            r.loc == self.loc,
            call_ensures(f, (self.inner,), r.inner),
    {
        let EasyLocated { inner, loc } = self;
        EasyLocated { inner: f(inner), loc }
    }
}

impl<X> EasyLocated<Option<X>> {
    /// Moves the location inside the option: a located `Some` becomes a
    /// `Some` located value, a located `None` becomes `None`.
    pub fn transpose(self) -> (r: Option<EasyLocated<X>>)
        ensures
            match r {
                Some(y) => self.inner is Some && y.inner == self.inner->0 && y.loc
                    == self.loc,
                None => self.inner is None,
            },
    {
        let EasyLocated { inner, loc } = self;
        match inner {
            Some(x) => Some(EasyLocated { inner: x, loc }),
            None => None,
        }
    }

    /// Applies a fallible function to the inner value, keeping the location.
    pub fn and_then<Y, F: FnOnce(X) -> Option<Y>>(self, f: F) -> (r: EasyLocated<Option<Y>>)
        requires
            self.inner is Some ==> call_requires(f, (self.inner->0,)),
        ensures
            r.loc == self.loc,
            self.inner is None ==> r.inner is None,
            self.inner is Some ==> call_ensures(f, (self.inner->0,), r.inner),
    {
        let EasyLocated { inner, loc } = self;
        match inner {
            Some(x) => EasyLocated { inner: f(x), loc },
            None => EasyLocated { inner: None, loc },
        }
    }
}

impl<X, E> EasyLocated<Result<X, E>> {
    /// Moves the location inside the result: the location sticks to the
    /// success value and is dropped from the error.
    pub fn transpose(self) -> (r: Result<EasyLocated<X>, E>)
        ensures
            match r {
                Ok(y) => self.inner is Ok && y.inner == self.inner->Ok_0 && y.loc == self.loc,
                Err(e) => self.inner is Err && e == self.inner->Err_0,
            },
    {
        let EasyLocated { inner, loc } = self;
        match inner {
            Ok(x) => Ok(EasyLocated { inner: x, loc }),
            Err(e) => Err(e),
        }
    }

    /// Moves the location inside the result, keeping it on the error too.
    pub fn transpose_with_located_err(self) -> (r: Result<EasyLocated<X>, EasyLocated<E>>)
        ensures
            match r {
                Ok(y) => self.inner is Ok && y.inner == self.inner->Ok_0 && y.loc == self.loc,
                Err(e) => self.inner is Err && e.inner == self.inner->Err_0 && e.loc == self.loc,
            },
    {
        let EasyLocated { inner, loc } = self;
        match inner {
            Ok(x) => Ok(EasyLocated { inner: x, loc }),
            Err(e) => Err(EasyLocated { inner: e, loc }),
        }
    }

    /// Applies a fallible function to the success value, keeping the location.
    pub fn and_then<Y, F: FnOnce(X) -> Result<Y, E>>(self, f: F) -> (r: EasyLocated<Result<Y, E>>)
        requires
            self.inner is Ok ==> call_requires(f, (self.inner->Ok_0,)),
        ensures
            r.loc == self.loc,
            self.inner is Err ==> r.inner is Err && r.inner->Err_0 == self.inner->Err_0,
            self.inner is Ok ==> call_ensures(f, (self.inner->Ok_0,), r.inner),
    {
        let EasyLocated { inner, loc } = self;
        match inner {
            Ok(x) => EasyLocated { inner: f(x), loc },
            Err(e) => EasyLocated { inner: Err(e), loc },
        }
    }
}

/// Anything that carries a byte range and can stamp it onto a value.
pub trait EasyLocator {
    /// The byte range this locator stamps onto values.
    spec fn span(&self) -> Range<usize>;

    /// Pairs `x` with this locator's byte range.
    fn locate<X>(&self, x: X) -> (r: EasyLocated<X>)
        ensures
            r.inner == x,
            r.loc == self.span(),
    ;
}

impl EasyLocator for Range<usize> {
    open spec fn span(&self) -> Range<usize> {
        *self
    }

    fn locate<X>(&self, x: X) -> (r: EasyLocated<X>) {
        EasyLocated { inner: x, loc: Range { start: self.start, end: self.end } }
    }
}

impl<Y> EasyLocator for EasyLocated<Y> {
    open spec fn span(&self) -> Range<usize> {
        self.loc
    }

    fn locate<X>(&self, x: X) -> (r: EasyLocated<X>) {
        EasyLocated { inner: x, loc: Range { start: self.loc.start, end: self.loc.end } }
    }
}

} // verus!
