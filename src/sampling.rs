use rand::Rng;
use vstd::prelude::*;

use crate::model::{lemma_sum_prefix_le, lemma_sum_take, sum_of};

verus! {

pub open spec fn weight_size<A>() -> spec_fn((A, usize)) -> nat {
    |e: (A, usize)| e.1 as nat
}

/// The sum of the weights of the first `k` outcomes.
pub open spec fn prefix_weight<A>(d: Seq<(A, usize)>, k: int) -> nat {
    sum_of(d.take(k), weight_size::<A>())
}

/// Relies on rand's `thread_rng` and `Rng::gen_range(low, high)`: a value in
/// `[low, high)`; it panics when `low >= high`, which `requires` excludes.
#[verifier::external_body]
pub(crate) fn draw_below(bound: usize) -> (r: usize)
    requires
        bound > 0,
    ensures
        r < bound,
{
    rand::thread_rng().gen_range(0, bound)
}

/// The sum of all weights.
pub fn total_weight<A>(d: &Vec<(A, usize)>) -> (r: usize)
    requires
        sum_of(d@, weight_size::<A>()) <= usize::MAX,
    ensures
        r == sum_of(d@, weight_size::<A>()),
{
    let mut acc: usize = 0;
    let mut i: usize = 0;
    while i < d.len()
        invariant
            i <= d@.len(),
            acc == prefix_weight(d@, i as int),
            sum_of(d@, weight_size::<A>()) <= usize::MAX,
        decreases d@.len() - i,
    {
        proof {
            lemma_sum_take(d@, i as int, weight_size::<A>());
            lemma_sum_prefix_le(d@, i + 1, weight_size::<A>());
        }
        acc = acc + d[i].1;
        i = i + 1;
    }
    proof {
        assert(d@.take(i as int) =~= d@);
    }
    acc
}

/// Weighted selection: the index of the first outcome whose running total of
/// weights exceeds `draw`. A `draw` uniform in `[0, total)` selects each
/// outcome with probability weight / total.
pub fn select<A>(d: &Vec<(A, usize)>, draw: usize) -> (r: usize)
    requires
        draw < sum_of(d@, weight_size::<A>()),
        sum_of(d@, weight_size::<A>()) <= usize::MAX,
    ensures
        r < d@.len(),
        prefix_weight(d@, r as int) <= draw < prefix_weight(d@, r + 1),
{
    let mut acc: usize = 0;
    let mut i: usize = 0;
    while i < d.len()
        invariant
            i <= d@.len(),
            acc == prefix_weight(d@, i as int),
            acc <= draw,
            draw < sum_of(d@, weight_size::<A>()),
            sum_of(d@, weight_size::<A>()) <= usize::MAX,
        decreases d@.len() - i,
    {
        proof {
            lemma_sum_take(d@, i as int, weight_size::<A>());
            lemma_sum_prefix_le(d@, i + 1, weight_size::<A>());
        }
        let next_acc = acc + d[i].1;
        if next_acc > draw {
            return i;
        }
        acc = next_acc;
        i = i + 1;
    }
    proof {
        assert(d@.take(i as int) =~= d@);
    }
    0
}

} // verus!
