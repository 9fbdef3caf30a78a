//! Short lists that live inline while they hold one item.

use crate::format::Format;
use smallvec::SmallVec;
use vstd::prelude::*;

verus! {

/// A short list of numbers: seasons, or years.
#[verifier::external_body]
pub struct SmallU32s {
    inner: SmallVec<[u32; 1]>,
}

/// A short list of formats.
#[verifier::external_body]
pub struct SmallFormats {
    inner: SmallVec<[Format; 1]>,
}

/// A short list of places in an array.
#[verifier::external_body]
pub struct SmallUsizes {
    inner: SmallVec<[usize; 1]>,
}

/// What a short list of numbers holds, in order.
pub uninterp spec fn small_u32s(v: SmallU32s) -> Seq<u32>;

/// What a short list of formats holds, in order.
pub uninterp spec fn small_formats(v: SmallFormats) -> Seq<Format>;

/// What a short list of places holds, in order.
pub uninterp spec fn small_usizes(v: SmallUsizes) -> Seq<usize>;

impl View for SmallU32s {
    type V = Seq<u32>;

    open spec fn view(&self) -> Seq<u32> {
        small_u32s(*self)
    }
}

impl View for SmallFormats {
    type V = Seq<Format>;

    open spec fn view(&self) -> Seq<Format> {
        small_formats(*self)
    }
}

impl View for SmallUsizes {
    type V = Seq<usize>;

    open spec fn view(&self) -> Seq<usize> {
        small_usizes(*self)
    }
}

impl SmallU32s {
    /// `SmallVec::new`: a list that holds nothing.
    #[verifier::external_body]
    pub(crate) fn new() -> (r: Self)
        ensures
            small_u32s(r) == Seq::<u32>::empty(),
    {
        SmallU32s { inner: SmallVec::new() }
    }

    /// `SmallVec::push`: the list with `x` added at its end.
    #[verifier::external_body]
    pub(crate) fn push(&mut self, x: u32)
        ensures
            small_u32s(*final(self)) == small_u32s(*old(self)).push(x),
    {
        self.inner.push(x)
    }

    /// `SmallVec::as_slice`: what the list holds, as a slice.
    #[verifier::external_body]
    pub(crate) fn as_slice(&self) -> (r: &[u32])
        ensures
            r@ == small_u32s(*self),
    {
        self.inner.as_slice()
    }
}

impl SmallU32s {
    /// What the list holds.
    pub fn items(&self) -> (r: &[u32])
        ensures
            r@ == self@,
    {
        self.as_slice()
    }
}

impl SmallFormats {
    /// What the list holds.
    pub fn items(&self) -> (r: &[Format])
        ensures
            r@ == self@,
    {
        self.as_slice()
    }
}

impl SmallUsizes {
    /// What the list holds.
    pub fn items(&self) -> (r: &[usize])
        ensures
            r@ == self@,
    {
        self.as_slice()
    }
}

impl SmallFormats {
    /// `SmallVec::new`: a list that holds nothing.
    #[verifier::external_body]
    pub(crate) fn new() -> (r: Self)
        ensures
            small_formats(r) == Seq::<Format>::empty(),
    {
        SmallFormats { inner: SmallVec::new() }
    }

    /// `SmallVec::push`: the list with `x` added at its end.
    #[verifier::external_body]
    pub(crate) fn push(&mut self, x: Format)
        ensures
            small_formats(*final(self)) == small_formats(*old(self)).push(x),
    {
        self.inner.push(x)
    }

    /// `SmallVec::as_slice`: what the list holds, as a slice.
    #[verifier::external_body]
    pub(crate) fn as_slice(&self) -> (r: &[Format])
        ensures
            r@ == small_formats(*self),
    {
        self.inner.as_slice()
    }
}

impl SmallUsizes {
    /// `SmallVec::new`: a list that holds nothing.
    #[verifier::external_body]
    pub(crate) fn new() -> (r: Self)
        ensures
            small_usizes(r) == Seq::<usize>::empty(),
    {
        SmallUsizes { inner: SmallVec::new() }
    }

    /// `SmallVec::push`: the list with `x` added at its end.
    #[verifier::external_body]
    pub(crate) fn push(&mut self, x: usize)
        ensures
            small_usizes(*final(self)) == small_usizes(*old(self)).push(x),
    {
        self.inner.push(x)
    }

    /// `SmallVec::as_slice`: what the list holds, as a slice.
    #[verifier::external_body]
    pub(crate) fn as_slice(&self) -> (r: &[usize])
        ensures
            r@ == small_usizes(*self),
    {
        self.inner.as_slice()
    }
}

} // verus!
