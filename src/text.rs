use std::sync::Arc;
use vstd::prelude::*;

use crate::chain::ArcChain;
use crate::producers::{InfiniteChainIterator, SizedChainIterator};

verus! {

/// The words of a text, as `str::split_whitespace` finds them.
pub uninterp spec fn whitespace_words(s: Seq<char>) -> Seq<Seq<char>>;

/// Relies on `str::split_whitespace`: the fragments of `s` between runs of
/// whitespace, in order, with no empty ones.
#[verifier::external_body]
fn split_words(s: &str) -> (r: Vec<String>)
    ensures
        r@.map_values(|w: String| w@) == whitespace_words(s@),
{
    s.split_whitespace().map(|w| w.to_string()).collect()
}

/// Words joined by single spaces.
pub open spec fn joined(ws: Seq<Seq<char>>) -> Seq<char>
    decreases ws.len(),
{
    if ws.len() == 0 {
        Seq::empty()
    } else if ws.len() == 1 {
        ws[0]
    } else {
        joined(ws.drop_last()) + seq![' '] + ws.last()
    }
}

/// Reads a generated sequence of words as one line of text.
pub open spec fn rendered(v: Seq<Arc<String>>) -> Seq<char> {
    joined(ArcChain::<String>::arcs_view(v))
}

impl ArcChain<String> {
    /// Feeds the chain the whitespace-separated words of `string`. Where the
    /// count of recorded transitions would pass `usize::MAX`, nothing is fed.
    pub fn feed_str(&mut self, string: &str) -> (r: &mut ArcChain<String>)
        requires
            old(self).wf(),
        ensures
            r.wf(),
            old(self).fed_spec() + whitespace_words(string@).len() + 1 <= usize::MAX
                ==> r.feeds(*old(self), whitespace_words(string@)),
            old(self).fed_spec() + whitespace_words(string@).len() + 1 > usize::MAX ==> *r == *old(self),
            *final(self) == *final(r),
    {
        let words = split_words(string);
        proof {
            assert(Self::views(words@) =~= whitespace_words(string@));
        }
        let fed = self.recorded();
        if words.len() < usize::MAX - fed {
            self.feed(words)
        } else {
            self
        }
    }

    /// Joins a generated sequence of words with single spaces.
    fn vec_to_string(vec: Vec<Arc<String>>) -> (r: String)
        ensures
            r@ == rendered(vec@),
    {
        let ghost ws = Self::arcs_view(vec@);
        let mut ret = String::new();
        let mut i: usize = 0;
        while i < vec.len()
            invariant
                i <= vec@.len(),
                ws == Self::arcs_view(vec@),
                ret@ == joined(ws.take(i as int)),
            decreases vec@.len() - i,
        {
            let a: &Arc<String> = &vec[i];
            let s: &String = &**a;
            proof {
                assert(ws.take(i + 1).drop_last() =~= ws.take(i as int));
            }
            if i > 0 {
                proof {
                    reveal_strlit(" ");
                }
                ret.append(" ");
            } else {
                proof {
                    assert(ret@ =~= Seq::<char>::empty());
                }
            }
            ret.append(s.as_str());
            proof {
                if i > 0 {
                    assert(ret@ =~= joined(ws.take(i as int)) + seq![' '] + ws[i as int]);
                } else {
                    assert(ret@ =~= ws[0]);
                }
            }
            i = i + 1;
        }
        proof {
            assert(ws.take(i as int) =~= ws);
        }
        ret
    }

    /// Generates a line of text.
    pub fn generate_str(&self) -> (r: String)
        requires
            self.wf(),
            !self.is_empty_spec(),
        ensures
            exists|v: Seq<Arc<String>>| self.is_walk(self.start(), Self::arcs_view(v)) && r@ == rendered(v),
    {
        let v = Self::generate(self);
        Self::vec_to_string(v)
    }

    /// Generates a line of text that starts with `string`; empty when the
    /// window of `order` copies of it is not in the table.
    pub fn generate_str_from_token(&self, string: &str) -> (r: String)
        requires
            self.wf(),
        ensures
            exists|v: Seq<Arc<String>>| {
                &&& r@ == rendered(v)
                &&& !self.has_window(crate::model::repeated(self.order_spec(), string@)) ==> v.len() == 0
                &&& self.has_window(crate::model::repeated(self.order_spec(), string@)) ==> {
                    &&& v.len() >= 1
                    &&& v[0]@ == string@
                    &&& self.is_walk(crate::model::repeated(self.order_spec(), string@), Self::arcs_view(v.skip(1)))
                }
            },
    {
        let v = self.generate_from_token(string.to_owned());
        Self::vec_to_string(v)
    }

    /// A producer of generated lines of text without end.
    pub fn str_iter(&self) -> (r: InfiniteChainStringIterator<'_>)
        ensures
            r.inner.source() == *self,
    {
        InfiniteChainStringIterator { inner: self.iter() }
    }

    /// A producer of exactly `size` generated lines of text.
    pub fn str_iter_for(&self, size: usize) -> (r: SizedChainStringIterator<'_>)
        ensures
            r.inner.source() == *self,
            r.inner.remaining() == size,
    {
        SizedChainStringIterator { inner: self.iter_for(size) }
    }
}

/// Yields a given number of generated lines of text, then nothing.
pub struct SizedChainStringIterator<'a> {
    pub inner: SizedChainIterator<'a, String>,
}

/// Yields a generated line of text every time it is asked, without end.
pub struct InfiniteChainStringIterator<'a> {
    pub inner: InfiniteChainIterator<'a, String>,
}

impl<'a> SizedChainStringIterator<'a> {
    /// The next generated line, or `None` once all have been yielded.
    pub fn next(&mut self) -> (r: Option<String>)
        requires
            old(self).inner.source().wf(),
            old(self).inner.remaining() > 0 ==> !old(self).inner.source().is_empty_spec(),
        ensures
            final(self).inner.source() == old(self).inner.source(),
            old(self).inner.remaining() == 0 ==> r is None && final(self).inner.remaining() == 0,
            old(self).inner.remaining() > 0 ==> {
                &&& final(self).inner.remaining() == old(self).inner.remaining() - 1
                &&& r is Some
                &&& exists|v: Seq<Arc<String>>| old(self).inner.source().is_walk(
                    old(self).inner.source().start(),
                    ArcChain::<String>::arcs_view(v),
                ) && r->Some_0@ == rendered(v)
            },
    {
        match self.inner.next() {
            Some(v) => Some(ArcChain::<String>::vec_to_string(v)),
            None => None,
        }
    }
}

impl<'a> InfiniteChainStringIterator<'a> {
    /// A freshly generated line; never `None`.
    pub fn next(&mut self) -> (r: Option<String>)
        requires
            old(self).inner.source().wf(),
            !old(self).inner.source().is_empty_spec(),
        ensures
            final(self).inner.source() == old(self).inner.source(),
            r is Some,
            exists|v: Seq<Arc<String>>| old(self).inner.source().is_walk(
                old(self).inner.source().start(),
                ArcChain::<String>::arcs_view(v),
            ) && r->Some_0@ == rendered(v),
    {
        match self.inner.next() {
            Some(v) => Some(ArcChain::<String>::vec_to_string(v)),
            None => None,
        }
    }
}

} // verus!
