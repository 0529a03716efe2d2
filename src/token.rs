use std::sync::Arc;
use vstd::prelude::*;

verus! {

/// A value that can be a token of a chain: its equality is decided by its view.
pub trait Chainable: View + Sized {
    fn same(&self, other: &Self) -> (r: bool)
        ensures
            r == (self@ == other@),
    ;
}

impl Chainable for String {
    fn same(&self, other: &Self) -> (r: bool) {
        *self == *other
    }
}

impl Chainable for u8 {
    fn same(&self, other: &Self) -> (r: bool) {
        *self == *other
    }
}

impl Chainable for u16 {
    fn same(&self, other: &Self) -> (r: bool) {
        *self == *other
    }
}

impl Chainable for u32 {
    fn same(&self, other: &Self) -> (r: bool) {
        *self == *other
    }
}

impl Chainable for u64 {
    fn same(&self, other: &Self) -> (r: bool) {
        *self == *other
    }
}

impl Chainable for usize {
    fn same(&self, other: &Self) -> (r: bool) {
        *self == *other
    }
}

impl Chainable for i32 {
    fn same(&self, other: &Self) -> (r: bool) {
        *self == *other
    }
}

impl Chainable for i64 {
    fn same(&self, other: &Self) -> (r: bool) {
        *self == *other
    }
}

impl Chainable for bool {
    fn same(&self, other: &Self) -> (r: bool) {
        *self == *other
    }
}

impl Chainable for char {
    fn same(&self, other: &Self) -> (r: bool) {
        *self == *other
    }
}

/// A token slot: `None` is the boundary marker, `Some` a shared token.
pub type ArcToken<T> = Option<Arc<T>>;

pub open spec fn slot_view<T: View>(s: ArcToken<T>) -> Option<T::V> {
    match s {
        Some(t) => Some(t@),
        None => None,
    }
}

pub open spec fn slots_view<T: View>(w: Seq<ArcToken<T>>) -> Seq<Option<T::V>> {
    w.map_values(|s: ArcToken<T>| slot_view(s))
}

/// Relies on `Arc::clone`: the copy points to the same value.
#[verifier::external_body]
pub(crate) fn share<T>(a: &Arc<T>) -> (r: Arc<T>)
    ensures
        r == *a,
{
    Arc::clone(a)
}

pub(crate) fn share_slot<T: View>(s: &ArcToken<T>) -> (r: ArcToken<T>)
    ensures
        r == *s,
{
    match s {
        Some(t) => Some(share(t)),
        None => None,
    }
}

pub(crate) fn same_slot<T: Chainable>(a: &ArcToken<T>, b: &ArcToken<T>) -> (r: bool)
    ensures
        r == (slot_view(*a) == slot_view(*b)),
{
    match (a, b) {
        (Some(x), Some(y)) => {
            let xr: &T = &**x;
            let yr: &T = &**y;
            xr.same(yr)
        },
        (None, None) => true,
        _ => false,
    }
}

pub(crate) fn same_window<T: Chainable>(a: &Vec<ArcToken<T>>, b: &Vec<ArcToken<T>>) -> (r: bool)
    ensures
        r == (slots_view(a@) == slots_view(b@)),
{
    if a.len() != b.len() {
        proof {
            assert(slots_view(a@).len() != slots_view(b@).len());
        }
        return false;
    }
    let mut i: usize = 0;
    while i < a.len()
        invariant
            a@.len() == b@.len(),
            i <= a@.len(),
            forall|k: int| 0 <= k < i ==> slot_view(#[trigger] a@[k]) == slot_view(b@[k]),
        decreases a@.len() - i,
    {
        if !same_slot(&a[i], &b[i]) {
            proof {
                assert(slots_view(a@)[i as int] != slots_view(b@)[i as int]);
            }
            return false;
        }
        i = i + 1;
    }
    proof {
        assert(slots_view(a@) =~= slots_view(b@));
    }
    true
}

} // verus!
