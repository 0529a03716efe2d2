use vstd::prelude::*;

use crate::chain::ArcChain;
use crate::model::{
    boundary, extended, lemma_extended_index, lemma_occurrence_at, lemma_occurrence_witness,
    next_at, repeated, window_at,
};
use crate::token::Chainable;

verus! {

/// A chain that was fed a non-empty sequence is not empty.
pub proof fn lemma_fed_not_empty<T: Chainable>(before: ArcChain<T>, after: ArcChain<T>, toks: Seq<T::V>)
    requires
        after.feeds(before, toks),
        toks.len() > 0,
    ensures
        !after.is_empty_spec(),
{
    let ord = before.order_spec();
    assert(window_at(ord, toks, 0) =~= boundary::<T::V>(ord)) by {
        assert forall|k: int| 0 <= k < ord implies #[trigger] window_at(ord, toks, 0)[k] == boundary::<T::V>(ord)[k] by {
            lemma_extended_index(ord, toks, k);
        }
    }
    lemma_extended_index(ord, toks, ord as int);
    lemma_occurrence_at(ord, toks, 0, (toks.len() + 1) as nat);
    assert(after.weight(after.start(), Some(toks[0])) > 0);
}

/// Feeding one sequence twice into a chain that has seen nothing gives every
/// transition twice the weight that feeding it once gives.
pub proof fn lemma_feed_twice<T: Chainable>(
    fresh: ArcChain<T>,
    once: ArcChain<T>,
    twice: ArcChain<T>,
    toks: Seq<T::V>,
)
    requires
        forall|w: Seq<Option<T::V>>, o: Option<T::V>| #[trigger] fresh.weight(w, o) == 0,
        once.feeds(fresh, toks),
        twice.feeds(once, toks),
    ensures
        forall|w: Seq<Option<T::V>>, o: Option<T::V>| #[trigger] twice.weight(w, o) == 2 * once.weight(w, o),
{
    assert forall|w: Seq<Option<T::V>>, o: Option<T::V>| #[trigger] twice.weight(w, o) == 2 * once.weight(w, o) by {
        assert(fresh.weight(w, o) == 0);
        assert(once.weight(w, o) == fresh.weight(w, o) + if toks.len() == 0 { 0nat } else {
            crate::model::occurrences(fresh.order_spec(), toks, w, o, toks.len() + 1)
        });
    }
}

/// Feeding adds weight only under windows of exactly `order` slots, each the
/// `order` slots that precede the follower in the framed sequence.
pub proof fn lemma_feed_windows<T: Chainable>(
    before: ArcChain<T>,
    after: ArcChain<T>,
    toks: Seq<T::V>,
    w: Seq<Option<T::V>>,
    o: Option<T::V>,
)
    requires
        after.feeds(before, toks),
        after.weight(w, o) > before.weight(w, o),
    ensures
        w.len() == before.order_spec(),
        exists|j: int|
            0 <= j <= toks.len() && #[trigger] extended(before.order_spec(), toks).subrange(j, j + before.order_spec()) == w
                && extended(before.order_spec(), toks)[j + before.order_spec()] == o,
{
    let ord = before.order_spec();
    lemma_occurrence_witness(ord, toks, w, o, (toks.len() + 1) as nat);
    let j = choose|j: int| 0 <= j < toks.len() + 1 && window_at(ord, toks, j) == w && next_at(ord, toks, j) == o;
    lemma_extended_index(ord, toks, 0);
}

/// Feeding `[a, b, c]` at order one records the transitions from the boundary
/// to `a`, from `a` to `b`, from `b` to `c`, and from `c` to the boundary.
pub proof fn lemma_round_trip<T: Chainable>(
    before: ArcChain<T>,
    after: ArcChain<T>,
    a: T::V,
    b: T::V,
    c: T::V,
)
    requires
        before.order_spec() == 1,
        after.feeds(before, seq![a, b, c]),
    ensures
        after.weight(seq![None], Some(a)) >= 1,
        after.weight(seq![Some(a)], Some(b)) >= 1,
        after.weight(seq![Some(b)], Some(c)) >= 1,
        after.weight(seq![Some(c)], None) >= 1,
{
    let toks = seq![a, b, c];
    let e = extended(1, toks);
    assert(e =~= seq![None, Some(a), Some(b), Some(c), None]) by {
        assert forall|k: int| 0 <= k < 5 implies #[trigger] e[k] == seq![None, Some(a), Some(b), Some(c), None][k] by {
            lemma_extended_index(1, toks, k);
        }
        lemma_extended_index(1, toks, 0);
    }
    assert(window_at(1, toks, 0) =~= seq![None]);
    assert(window_at(1, toks, 1) =~= seq![Some(a)]);
    assert(window_at(1, toks, 2) =~= seq![Some(b)]);
    assert(window_at(1, toks, 3) =~= seq![Some(c)]);
    lemma_occurrence_at(1, toks, 0, 4);
    lemma_occurrence_at(1, toks, 1, 4);
    lemma_occurrence_at(1, toks, 2, 4);
    lemma_occurrence_at(1, toks, 3, 4);
}

/// Feeding a sequence that does not hold `x` never makes the window of
/// `order` copies of `x` a key, so generating from `x` stays empty.
pub proof fn lemma_unseen_seed<T: Chainable>(
    before: ArcChain<T>,
    after: ArcChain<T>,
    toks: Seq<T::V>,
    x: T::V,
)
    requires
        before.wf(),
        after.feeds(before, toks),
        !toks.contains(x),
        !before.has_window(repeated(before.order_spec(), x)),
    ensures
        !after.has_window(repeated(after.order_spec(), x)),
{
    let ord = before.order_spec();
    let seed = repeated(ord, x);
    if after.has_window(seed) {
        let j = choose|j: int| 0 <= j <= toks.len() && #[trigger] window_at(ord, toks, j) == seed;
        assert(window_at(ord, toks, j)[0] == Some(x));
        lemma_extended_index(ord, toks, j);
        assert(toks[j - ord] == x);
    }
}

/// A chain that has only its boundary window, as a new one has, holds no
/// window of copies of any token.
pub proof fn lemma_fresh_has_no_seed<T: Chainable>(c: ArcChain<T>, x: T::V)
    requires
        c.order_spec() >= 1,
        forall|w: Seq<Option<T::V>>| #[trigger] c.has_window(w) <==> w == c.start(),
    ensures
        !c.has_window(repeated(c.order_spec(), x)),
{
    assert(repeated(c.order_spec(), x)[0] != c.start()[0]);
}

} // verus!
