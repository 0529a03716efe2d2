use vstd::prelude::*;

verus! {

/// The sum of `f` over the elements of `s`.
pub open spec fn sum_of<A>(s: Seq<A>, f: spec_fn(A) -> nat) -> nat
    decreases s.len(),
{
    if s.len() == 0 {
        0
    } else {
        sum_of(s.drop_last(), f) + f(s.last())
    }
}

pub proof fn lemma_sum_push<A>(s: Seq<A>, x: A, f: spec_fn(A) -> nat)
    ensures
        sum_of(s.push(x), f) == sum_of(s, f) + f(x),
{
    assert(s.push(x).drop_last() =~= s);
}

pub proof fn lemma_sum_update<A>(s: Seq<A>, i: int, x: A, f: spec_fn(A) -> nat)
    requires
        0 <= i < s.len(),
    ensures
        sum_of(s.update(i, x), f) + f(s[i]) == sum_of(s, f) + f(x),
    decreases s.len(),
{
    if i == s.len() - 1 {
        assert(s.update(i, x).drop_last() =~= s.drop_last());
    } else {
        assert(s.update(i, x).drop_last() =~= s.drop_last().update(i, x));
        lemma_sum_update(s.drop_last(), i, x, f);
    }
}

pub proof fn lemma_sum_ge<A>(s: Seq<A>, i: int, f: spec_fn(A) -> nat)
    requires
        0 <= i < s.len(),
    ensures
        sum_of(s, f) >= f(s[i]),
    decreases s.len(),
{
    if i < s.len() - 1 {
        lemma_sum_ge(s.drop_last(), i, f);
    }
}

/// Where `f` vanishes everywhere but at `i`, the sum is `f(s[i])`.
pub proof fn lemma_sum_single<A>(s: Seq<A>, i: int, f: spec_fn(A) -> nat)
    requires
        0 <= i < s.len(),
        forall|j: int| 0 <= j < s.len() && j != i ==> f(#[trigger] s[j]) == 0,
    ensures
        sum_of(s, f) == f(s[i]),
    decreases s.len(),
{
    if i < s.len() - 1 {
        lemma_sum_single(s.drop_last(), i, f);
    } else {
        lemma_sum_zero(s.drop_last(), f);
    }
}

pub proof fn lemma_sum_zero<A>(s: Seq<A>, f: spec_fn(A) -> nat)
    requires
        forall|j: int| 0 <= j < s.len() ==> f(#[trigger] s[j]) == 0,
    ensures
        sum_of(s, f) == 0,
    decreases s.len(),
{
    if s.len() > 0 {
        lemma_sum_zero(s.drop_last(), f);
    }
}

pub proof fn lemma_sum_take<A>(s: Seq<A>, k: int, f: spec_fn(A) -> nat)
    requires
        0 <= k < s.len(),
    ensures
        sum_of(s.take(k + 1), f) == sum_of(s.take(k), f) + f(s[k]),
{
    assert(s.take(k + 1).drop_last() =~= s.take(k));
}

/// `n` boundary slots.
pub open spec fn boundary<V>(n: nat) -> Seq<Option<V>> {
    Seq::new(n, |_i: int| None::<V>)
}

/// `n` copies of one token.
pub open spec fn repeated<V>(n: nat, v: V) -> Seq<Option<V>> {
    Seq::new(n, |_i: int| Some(v))
}

/// The fed sequence framed for windowing: `order` boundary slots, the tokens,
/// and one closing boundary slot.
pub open spec fn extended<V>(order: nat, toks: Seq<V>) -> Seq<Option<V>> {
    boundary::<V>(order) + toks.map_values(|t: V| Some(t)) + seq![None::<V>]
}

/// The context window of the `j`-th transition of a fed sequence.
pub open spec fn window_at<V>(order: nat, toks: Seq<V>, j: int) -> Seq<Option<V>> {
    extended(order, toks).subrange(j, j + order)
}

/// The slot that follows the `j`-th window of a fed sequence.
pub open spec fn next_at<V>(order: nat, toks: Seq<V>, j: int) -> Option<V> {
    extended(order, toks)[j + order]
}

/// How many of the first `m` transitions of a fed sequence go from `w` to `o`.
pub open spec fn occurrences<V>(order: nat, toks: Seq<V>, w: Seq<Option<V>>, o: Option<V>, m: nat) -> nat
    decreases m,
{
    if m == 0 {
        0
    } else {
        occurrences(order, toks, w, o, (m - 1) as nat) + if window_at(order, toks, m - 1) == w
            && next_at(order, toks, m - 1) == o {
            1nat
        } else {
            0nat
        }
    }
}

/// How many transitions feeding `toks` records: one more than its length,
/// and none for an empty sequence.
pub open spec fn transition_count<V>(toks: Seq<V>) -> nat {
    if toks.len() == 0 {
        0
    } else {
        toks.len() + 1
    }
}

/// The window that follows `w` once `o` has been drawn.
pub open spec fn slide<V>(w: Seq<Option<V>>, o: Option<V>) -> Seq<Option<V>> {
    w.drop_first().push(o)
}

} // verus!

verus! {

pub proof fn lemma_sum_prefix_le<A>(s: Seq<A>, k: int, f: spec_fn(A) -> nat)
    requires
        0 <= k <= s.len(),
    ensures
        sum_of(s.take(k), f) <= sum_of(s, f),
    decreases s.len(),
{
    if k == s.len() {
        assert(s.take(k) =~= s);
    } else {
        assert(s.take(k) =~= s.drop_last().take(k));
        lemma_sum_prefix_le(s.drop_last(), k, f);
    }
}

/// The window reached from `w` after the tokens `toks` were drawn.
pub open spec fn walk_end<V>(w: Seq<Option<V>>, toks: Seq<V>) -> Seq<Option<V>>
    decreases toks.len(),
{
    if toks.len() == 0 {
        w
    } else {
        slide(walk_end(w, toks.drop_last()), Some(toks.last()))
    }
}

} // verus!

verus! {

/// Counting over more transitions never counts fewer.
pub proof fn lemma_occurrences_mono<V>(order: nat, toks: Seq<V>, w: Seq<Option<V>>, o: Option<V>, m1: nat, m2: nat)
    requires
        m1 <= m2,
    ensures
        occurrences(order, toks, w, o, m1) <= occurrences(order, toks, w, o, m2),
    decreases m2,
{
    if m1 < m2 {
        lemma_occurrences_mono(order, toks, w, o, m1, (m2 - 1) as nat);
    }
}

/// The `j`-th transition is counted once `j` is among the first `m`.
pub proof fn lemma_occurrence_at<V>(order: nat, toks: Seq<V>, j: nat, m: nat)
    requires
        j < m,
    ensures
        occurrences(order, toks, window_at(order, toks, j as int), next_at(order, toks, j as int), m) >= 1,
{
    lemma_occurrences_mono(order, toks, window_at(order, toks, j as int), next_at(order, toks, j as int), j + 1, m);
}

/// A counted transition is one of the first `m`.
pub proof fn lemma_occurrence_witness<V>(order: nat, toks: Seq<V>, w: Seq<Option<V>>, o: Option<V>, m: nat)
    requires
        occurrences(order, toks, w, o, m) > 0,
    ensures
        exists|j: int| 0 <= j < m && window_at(order, toks, j) == w && next_at(order, toks, j) == o,
    decreases m,
{
    if !(window_at(order, toks, m - 1) == w && next_at(order, toks, m - 1) == o) {
        lemma_occurrence_witness(order, toks, w, o, (m - 1) as nat);
    }
}

/// The slots of the framed sequence: boundary, then the tokens, then boundary.
pub proof fn lemma_extended_index<V>(order: nat, toks: Seq<V>, k: int)
    requires
        0 <= k < order + toks.len() + 1,
    ensures
        extended(order, toks).len() == order + toks.len() + 1,
        k < order ==> extended(order, toks)[k] == None::<V>,
        order <= k < order + toks.len() ==> extended(order, toks)[k] == Some(toks[k - order]),
        k == order + toks.len() ==> extended(order, toks)[k] == None::<V>,
{
    let b = boundary::<V>(order);
    let m = toks.map_values(|t: V| Some(t));
    assert((b + m).len() == order + toks.len());
    if k < order + toks.len() {
        assert(extended(order, toks)[k] == (b + m)[k]);
    } else {
        assert(extended(order, toks)[k] == seq![None::<V>][0]);
    }
}

} // verus!
