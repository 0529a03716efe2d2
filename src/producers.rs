use std::sync::Arc;
use vstd::prelude::*;

use crate::chain::ArcChain;
use crate::token::Chainable;

verus! {

/// Yields a given number of generated sequences, then nothing.
pub struct SizedChainIterator<'a, T> {
    chain: &'a ArcChain<T>,
    size: usize,
}

/// Yields a generated sequence every time it is asked, without end.
pub struct InfiniteChainIterator<'a, T> {
    chain: &'a ArcChain<T>,
}

impl<T: Chainable> ArcChain<T> {
    /// A producer of generated sequences without end.
    pub fn iter(&self) -> (r: InfiniteChainIterator<'_, T>)
        ensures
            r.source() == *self,
    {
        InfiniteChainIterator { chain: self }
    }

    /// A producer of exactly `size` generated sequences.
    pub fn iter_for(&self, size: usize) -> (r: SizedChainIterator<'_, T>)
        ensures
            r.source() == *self,
            r.remaining() == size,
    {
        SizedChainIterator { chain: self, size }
    }
}

impl<'a, T: Chainable> SizedChainIterator<'a, T> {
    pub closed spec fn source(&self) -> ArcChain<T> {
        *self.chain
    }

    /// How many sequences are still to come.
    pub closed spec fn remaining(&self) -> nat {
        self.size as nat
    }

    /// The next generated sequence, or `None` once all have been yielded.
    pub fn next(&mut self) -> (r: Option<Vec<Arc<T>>>)
        requires
            old(self).source().wf(),
            old(self).remaining() > 0 ==> !old(self).source().is_empty_spec(),
        ensures
            final(self).source() == old(self).source(),
            old(self).remaining() == 0 ==> r is None && final(self).remaining() == 0,
            old(self).remaining() > 0 ==> {
                &&& final(self).remaining() == old(self).remaining() - 1
                &&& r is Some
                &&& old(self).source().is_walk(
                    old(self).source().start(),
                    ArcChain::<T>::arcs_view(r->Some_0@),
                )
            },
    {
        if self.size > 0 {
            self.size = self.size - 1;
            Some(self.chain.generate())
        } else {
            None
        }
    }

    /// The exact number of sequences still to come, as lower and upper bound.
    pub fn size_hint(&self) -> (r: (usize, Option<usize>))
        ensures
            r.0 == self.remaining(),
            r.1 == Some(r.0),
    {
        (self.size, Some(self.size))
    }
}

impl<'a, T: Chainable> InfiniteChainIterator<'a, T> {
    pub closed spec fn source(&self) -> ArcChain<T> {
        *self.chain
    }

    /// A freshly generated sequence; never `None`.
    pub fn next(&mut self) -> (r: Option<Vec<Arc<T>>>)
        requires
            old(self).source().wf(),
            !old(self).source().is_empty_spec(),
        ensures
            final(self).source() == old(self).source(),
            r is Some,
            old(self).source().is_walk(
                old(self).source().start(),
                ArcChain::<T>::arcs_view(r->Some_0@),
            ),
    {
        Some(self.chain.generate())
    }
}

} // verus!
