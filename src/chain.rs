use std::sync::Arc;
use vstd::prelude::*;

use crate::model::{
    boundary, extended, lemma_sum_ge, lemma_sum_push, lemma_sum_single, lemma_sum_update,
    lemma_sum_zero, next_at, occurrences, repeated, slide, sum_of, transition_count, walk_end,
    window_at,
};
use crate::sampling::{draw_below, select, total_weight, weight_size};
use crate::token::{
    same_slot, same_window, share, share_slot, slot_view, slots_view, ArcToken, Chainable,
};

verus! {

/// One observed follower of a window, with how often it was seen.
pub type Outcome<T> = (ArcToken<T>, usize);

/// A window of the table and its distribution of followers.
pub type Entry<T> = (Vec<ArcToken<T>>, Vec<Outcome<T>>);

/// The weight that one outcome gives to the follower `o`.
pub open spec fn outcome_weight<T: View>(o: Option<T::V>) -> spec_fn(Outcome<T>) -> nat {
    |e: Outcome<T>| if slot_view(e.0) == o { e.1 as nat } else { 0nat }
}

/// The weight that a list of outcomes gives to the follower `o`.
pub open spec fn weight_of<T: View>(d: Seq<Outcome<T>>, o: Option<T::V>) -> nat {
    sum_of(d, outcome_weight::<T>(o))
}

/// The sum of all weights of a list of outcomes.
pub open spec fn total_of<T>(d: Seq<Outcome<T>>) -> nat {
    sum_of(d, weight_size::<ArcToken<T>>())
}

/// The weight that one entry gives to `o` after the window `w`.
pub open spec fn entry_weight<T: View>(w: Seq<Option<T::V>>, o: Option<T::V>) -> spec_fn(Entry<T>) -> nat {
    |e: Entry<T>| if slots_view(e.0@) == w { weight_of(e.1@, o) } else { 0nat }
}

/// A generic Markov chain: a table from windows of `order` slots to the
/// weighted followers observed after them.
pub struct ArcChain<T> {
    map: Vec<Entry<T>>,
    order: usize,
    fed: usize,
}

impl<T: Chainable> ArcChain<T> {
    /// The number of preceding slots that select a follower.
    pub closed spec fn order_spec(&self) -> nat {
        self.order as nat
    }

    /// How many transitions have been recorded in all.
    pub closed spec fn fed_spec(&self) -> nat {
        self.fed as nat
    }

    /// How often `o` was seen to follow the window `w`.
    pub closed spec fn weight(&self, w: Seq<Option<T::V>>, o: Option<T::V>) -> nat {
        sum_of(self.map@, entry_weight::<T>(w, o))
    }

    /// Whether `w` is a key of the table.
    pub closed spec fn has_window(&self, w: Seq<Option<T::V>>) -> bool {
        exists|i: int| 0 <= i < self.map@.len() && slots_view(#[trigger] self.map@[i].0@) == w
    }

    /// Whether some follower of `w` has been seen.
    pub open spec fn is_live(&self, w: Seq<Option<T::V>>) -> bool {
        exists|o: Option<T::V>| #[trigger] self.weight(w, o) > 0
    }

    /// The window that every generated sequence starts from.
    pub open spec fn start(&self) -> Seq<Option<T::V>> {
        boundary::<T::V>(self.order_spec())
    }

    /// Nothing has been seen to follow the start window.
    pub open spec fn is_empty_spec(&self) -> bool {
        !self.is_live(self.start())
    }

    /// Every token that was seen leads to a window whose followers were seen.
    pub open spec fn closed(&self) -> bool {
        forall|w: Seq<Option<T::V>>, v: T::V| #[trigger] self.weight(w, Some(v)) > 0
            ==> self.is_live(slide(w, Some(v)))
    }

    /// Keys are unique and the start window is one; weights are positive and
    /// each distribution's total fits the count of recorded transitions; only
    /// a boundary window may have no followers.
    pub closed spec fn wf_table(&self) -> bool {
        &&& self.order >= 1
        &&& forall|i: int, j: int|
            0 <= i < j < self.map@.len() ==> slots_view(#[trigger] self.map@[i].0@) != slots_view(
                #[trigger] self.map@[j].0@,
            )
        &&& self.has_window(self.start())
        &&& forall|i: int, k: int|
            0 <= i < self.map@.len() && 0 <= k < self.map@[i].1@.len() ==> #[trigger] self.map@[i].1@[k].1
                > 0
        &&& forall|i: int|
            0 <= i < self.map@.len() ==> total_of(#[trigger] self.map@[i].1@) <= self.fed
        &&& forall|i: int|
            0 <= i < self.map@.len() && self.map@[i].1@.len() == 0 ==> slots_view(
                #[trigger] self.map@[i].0@,
            ) == boundary::<T::V>(self.map@[i].0@.len())
    }

    /// The table's invariant.
    pub open spec fn wf(&self) -> bool {
        &&& self.order_spec() >= 1
        &&& self.wf_table()
        &&& self.closed()
    }

    proof fn lemma_weight_at(&self, i: int, w: Seq<Option<T::V>>, o: Option<T::V>)
        requires
            self.wf_table(),
            0 <= i < self.map@.len(),
            slots_view(self.map@[i].0@) == w,
        ensures
            self.weight(w, o) == weight_of(self.map@[i].1@, o),
    {
        let f = entry_weight::<T>(w, o);
        assert forall|j: int| 0 <= j < self.map@.len() && j != i implies f(
            #[trigger] self.map@[j],
        ) == 0 by {
            if j < i {
                assert(slots_view(self.map@[j].0@) != slots_view(self.map@[i].0@));
            } else {
                assert(slots_view(self.map@[i].0@) != slots_view(self.map@[j].0@));
            }
        }
        lemma_sum_single(self.map@, i, f);
    }

    proof fn lemma_weight_absent(&self, w: Seq<Option<T::V>>, o: Option<T::V>)
        requires
            !self.has_window(w),
        ensures
            self.weight(w, o) == 0,
    {
        let f = entry_weight::<T>(w, o);
        assert forall|j: int| 0 <= j < self.map@.len() implies f(#[trigger] self.map@[j]) == 0 by {
            assert(slots_view(self.map@[j].0@) != w);
        }
        lemma_sum_zero(self.map@, f);
    }

    /// The index of the entry whose window is `key`, if there is one.
    fn find(&self, key: &Vec<ArcToken<T>>) -> (r: Option<usize>)
        ensures
            match r {
                Some(i) => i < self.map@.len() && slots_view(self.map@[i as int].0@) == slots_view(
                    key@,
                ),
                None => !self.has_window(slots_view(key@)),
            },
    {
        let mut i: usize = 0;
        while i < self.map.len()
            invariant
                i <= self.map@.len(),
                forall|j: int| 0 <= j < i ==> slots_view(#[trigger] self.map@[j].0@) != slots_view(key@),
            decreases self.map@.len() - i,
        {
            if same_window(&self.map[i].0, key) {
                return Some(i);
            }
            i = i + 1;
        }
        None
    }

    /// Constructs a chain of order one that has seen nothing.
    pub fn new() -> (r: ArcChain<T>)
        ensures
            r.wf(),
            r.order_spec() == 1,
            r.fed_spec() == 0,
            r.is_empty_spec(),
            r.has_window(r.start()),
            forall|w: Seq<Option<T::V>>, o: Option<T::V>| #[trigger] r.weight(w, o) == 0,
            forall|w: Seq<Option<T::V>>| #[trigger] r.has_window(w) <==> w == r.start(),
    {
        let mut start: Vec<ArcToken<T>> = Vec::new();
        start.push(None);
        let mut map: Vec<Entry<T>> = Vec::new();
        map.push((start, Vec::new()));
        let r = ArcChain { map, order: 1, fed: 0 };
        proof {
            assert(slots_view(r.map@[0].0@) =~= r.start());
            assert(total_of(r.map@[0].1@) == 0);
            assert forall|w: Seq<Option<T::V>>, o: Option<T::V>| #[trigger] r.weight(w, o) == 0 by {
                assert(r.map@ =~= seq![(r.map@[0])]);
                lemma_sum_push(Seq::<Entry<T>>::empty(), r.map@[0], entry_weight::<T>(w, o));
                assert(r.map@[0].1@ =~= Seq::<Outcome<T>>::empty());
            }
            assert forall|w: Seq<Option<T::V>>| #[trigger] r.has_window(w) <==> w == r.start() by {
                if r.has_window(w) {
                    let i = choose|i: int| 0 <= i < r.map@.len() && slots_view(#[trigger] r.map@[i].0@) == w;
                    assert(i == 0);
                }
            }
        }
        r
    }

    /// Records one transition from the window `key` to the follower `next`.
    fn add(&mut self, key: Vec<ArcToken<T>>, next: ArcToken<T>)
        requires
            old(self).wf_table(),
            old(self).fed < usize::MAX,
        ensures
            final(self).wf_table(),
            final(self).order == old(self).order,
            final(self).fed == old(self).fed + 1,
            forall|w: Seq<Option<T::V>>, o: Option<T::V>| #[trigger] final(self).weight(w, o) == old(self).weight(w, o)
                + if w == slots_view(key@) && o == slot_view(next) { 1nat } else { 0nat },
            forall|w: Seq<Option<T::V>>| #[trigger] final(self).has_window(w) <==> (old(self).has_window(w) || w == slots_view(key@)),
    {
        let ghost old_map = self.map@;
        let ghost kv = slots_view(key@);
        let ghost nv = slot_view(next);
        match self.find(&key) {
            Some(i) => {
                let ghost d = self.map@[i as int].1@;
                let mut k: usize = 0;
                let mut found = false;
                while k < self.map[i].1.len()
                    invariant_except_break
                        !found,
                    invariant
                        nv == slot_view(next),
                        self.map@ == old_map,
                        i < self.map@.len(),
                        d == self.map@[i as int].1@,
                        k <= d.len(),
                        forall|j: int| 0 <= j < k ==> slot_view(#[trigger] d[j].0) != nv,
                    ensures
                        found ==> k < d.len() && slot_view(d[k as int].0) == nv,
                        !found ==> k == d.len(),
                    decreases d.len() - k,
                {
                    let is_next = same_slot(&self.map[i].1[k].0, &next);
                    proof {
                        assert(self.map@[i as int].1@[k as int] == d[k as int]);
                    }
                    if is_next {
                        found = true;
                        break;
                    }
                    k = k + 1;
                }
                let ghost d2: Seq<Outcome<T>>;
                if found {
                    let c = self.map[i].1[k].1;
                    proof {
                        lemma_sum_ge(d, k as int, weight_size::<ArcToken<T>>());
                    }
                    let entry = &mut self.map[i];
                    let slot = &mut entry.1[k];
                    slot.1 = c + 1;
                    proof {
                        d2 = d.update(k as int, (d[k as int].0, (c + 1) as usize));
                        assert(self.map@[i as int].1@ =~= d2);
                        lemma_sum_update(d, k as int, d2[k as int], weight_size::<ArcToken<T>>());
                        assert forall|o: Option<T::V>| #[trigger] weight_of(d2, o) == weight_of(d, o) + if o == nv { 1nat } else { 0nat } by {
                            lemma_sum_update(d, k as int, d2[k as int], outcome_weight::<T>(o));
                        }
                    }
                } else {
                    let entry = &mut self.map[i];
                    entry.1.push((next, 1));
                    proof {
                        d2 = d.push((next, 1usize));
                        assert(self.map@[i as int].1@ =~= d2);
                        lemma_sum_push(d, (next, 1usize), weight_size::<ArcToken<T>>());
                        assert forall|o: Option<T::V>| #[trigger] weight_of(d2, o) == weight_of(d, o) + if o == nv { 1nat } else { 0nat } by {
                            lemma_sum_push(d, (next, 1usize), outcome_weight::<T>(o));
                        }
                    }
                }
                self.fed = self.fed + 1;
                proof {
                    let e2 = self.map@[i as int];
                    assert(self.map@ =~= old_map.update(i as int, e2));
                    assert forall|w: Seq<Option<T::V>>, o: Option<T::V>| #[trigger] self.weight(w, o) == old(self).weight(w, o)
                        + if w == kv && o == nv { 1nat } else { 0nat } by {
                        lemma_sum_update(old_map, i as int, e2, entry_weight::<T>(w, o));
                    }
                    assert forall|w: Seq<Option<T::V>>| #[trigger] self.has_window(w) <==> (old(self).has_window(w) || w == kv) by {
                        if old(self).has_window(w) {
                            let j = choose|j: int| 0 <= j < old_map.len() && slots_view(#[trigger] old_map[j].0@) == w;
                            assert(slots_view(self.map@[j].0@) == w);
                        }
                        if w == kv {
                            assert(slots_view(self.map@[i as int].0@) == w);
                        }
                        if self.has_window(w) {
                            let j = choose|j: int| 0 <= j < self.map@.len() && slots_view(#[trigger] self.map@[j].0@) == w;
                            assert(slots_view(old_map[j].0@) == w);
                        }
                    }
                    assert(self.has_window(self.start()));
                    assert forall|a: int, b: int| 0 <= a < self.map@.len() && 0 <= b < self.map@[a].1@.len() implies #[trigger] self.map@[a].1@[b].1 > 0 by {
                        if a == i {
                            assert(self.map@[i as int].1@ == d2);
                            if b < d.len() {
                                assert(old_map[i as int].1@[b].1 > 0);
                            }
                        } else {
                            assert(old_map[a] == self.map@[a]);
                            assert(old_map[a].1@[b].1 > 0);
                        }
                    }
                    assert forall|a: int| 0 <= a < self.map@.len() implies total_of(#[trigger] self.map@[a].1@) <= self.fed by {
                        if a != i {
                            assert(total_of(old_map[a].1@) <= old(self).fed);
                        }
                    }
                }
            },
            None => {
                let mut d: Vec<Outcome<T>> = Vec::new();
                d.push((next, 1));
                let ghost e: Entry<T> = (key, d);
                self.map.push((key, d));
                self.fed = self.fed + 1;
                proof {
                    assert(self.map@ =~= old_map.push(e));
                    assert(d@ =~= Seq::<Outcome<T>>::empty().push((next, 1usize)));
                    lemma_sum_push(Seq::<Outcome<T>>::empty(), (next, 1usize), weight_size::<ArcToken<T>>());
                    assert forall|w: Seq<Option<T::V>>, o: Option<T::V>| #[trigger] self.weight(w, o) == old(self).weight(w, o)
                        + if w == kv && o == nv { 1nat } else { 0nat } by {
                        lemma_sum_push(old_map, e, entry_weight::<T>(w, o));
                        lemma_sum_push(Seq::<Outcome<T>>::empty(), (next, 1usize), outcome_weight::<T>(o));
                    }
                    assert forall|w: Seq<Option<T::V>>| #[trigger] self.has_window(w) <==> (old(self).has_window(w) || w == kv) by {
                        if old(self).has_window(w) {
                            let j = choose|j: int| 0 <= j < old_map.len() && slots_view(#[trigger] old_map[j].0@) == w;
                            assert(slots_view(self.map@[j].0@) == w);
                        }
                        if w == kv {
                            assert(slots_view(self.map@[old_map.len() as int].0@) == w);
                        }
                        if self.has_window(w) {
                            let j = choose|j: int| 0 <= j < self.map@.len() && slots_view(#[trigger] self.map@[j].0@) == w;
                            if j < old_map.len() {
                                assert(slots_view(old_map[j].0@) == w);
                            }
                        }
                    }
                    assert(self.has_window(self.start()));
                    assert forall|a: int| 0 <= a < self.map@.len() implies total_of(#[trigger] self.map@[a].1@) <= self.fed by {
                        if a < old_map.len() {
                            assert(total_of(old_map[a].1@) <= old(self).fed);
                        }
                    }
                }
            },
        }
    }

    /// The views of a sequence of tokens.
    pub open spec fn views(toks: Seq<T>) -> Seq<T::V> {
        toks.map_values(|t: T| t@)
    }

    proof fn lemma_live_grows(&self, other: &Self, w: Seq<Option<T::V>>)
        requires
            forall|a: Seq<Option<T::V>>, o: Option<T::V>| #[trigger] other.weight(a, o) >= self.weight(a, o),
            self.is_live(w),
        ensures
            other.is_live(w),
    {
        let o = choose|o: Option<T::V>| #[trigger] self.weight(w, o) > 0;
        assert(other.weight(w, o) > 0);
    }

    /// `self` is `before` after feeding it the tokens `toks`: each transition
    /// of the framed sequence adds one to its weight, and its window becomes a
    /// key. An empty sequence changes nothing.
    pub open spec fn feeds(&self, before: Self, toks: Seq<T::V>) -> bool {
        &&& self.order_spec() == before.order_spec()
        &&& self.fed_spec() == before.fed_spec() + transition_count(toks)
        &&& forall|w: Seq<Option<T::V>>, o: Option<T::V>| #[trigger] self.weight(w, o) == before.weight(w, o)
            + if toks.len() == 0 { 0nat } else {
                occurrences(before.order_spec(), toks, w, o, toks.len() + 1)
            }
        &&& forall|w: Seq<Option<T::V>>| #[trigger] self.has_window(w) <==> (before.has_window(w)
            || (toks.len() > 0 && exists|j: int| 0 <= j <= toks.len()
                && #[trigger] window_at(before.order_spec(), toks, j) == w))
    }

    /// Feeds the chain one sequence of tokens: every window of `order` slots
    /// over the boundary-framed sequence gains one to the weight of the slot
    /// that follows it.
    pub fn feed(&mut self, tokens: Vec<T>) -> (r: &mut ArcChain<T>)
        requires
            old(self).wf(),
            old(self).fed_spec() + tokens@.len() + 1 <= usize::MAX,
        ensures
            r.wf(),
            r.feeds(*old(self), Self::views(tokens@)),
            *final(self) == *final(r),
    {
        let n = tokens.len();
        if n == 0 {
            return self;
        }
        let ghost orig = tokens@;
        let ghost tv = Self::views(orig);
        let ghost ord = self.order as nat;
        let mut ext: Vec<ArcToken<T>> = Vec::new();
        let mut i: usize = 0;
        while i < self.order
            invariant
                ext@.len() == i,
                i <= self.order,
                forall|k: int| 0 <= k < i ==> #[trigger] ext@[k] == None::<Arc<T>>,
            decreases self.order - i,
        {
            ext.push(None);
            i = i + 1;
        }
        let mut tokens = tokens;
        let mut rev: Vec<T> = Vec::new();
        while tokens.len() > 0
            invariant
                tokens@.len() + rev@.len() == n,
                tokens@ == orig.take(tokens@.len() as int),
                orig.len() == n,
                forall|k: int| 0 <= k < rev@.len() ==> #[trigger] rev@[k] == orig[n - 1 - k],
            decreases tokens@.len(),
        {
            let t = tokens.pop().unwrap();
            rev.push(t);
            proof {
                assert(tokens@ =~= orig.take(tokens@.len() as int));
            }
        }
        while rev.len() > 0
            invariant
                ext@.len() == self.order + (n - rev@.len()),
                rev@.len() <= n,
                orig.len() == n,
                tv == Self::views(orig),
                forall|k: int| 0 <= k < self.order ==> #[trigger] ext@[k] == None::<Arc<T>>,
                forall|k: int| 0 <= k < n - rev@.len() ==> slot_view(#[trigger] ext@[self.order + k]) == Some(tv[k]),
                forall|k: int| 0 <= k < rev@.len() ==> #[trigger] rev@[k] == orig[n - 1 - k],
            decreases rev@.len(),
        {
            let t = rev.pop().unwrap();
            ext.push(Some(Arc::new(t)));
            proof {
                let done = n - rev@.len() - 1;
                assert(slot_view(ext@[self.order + done]) == Some(tv[done]));
            }
        }
        ext.push(None);
        let ghost e = extended(ord, tv);
        proof {
            assert(slots_view(ext@) =~= e) by {
                assert(e.len() == ext@.len());
                assert forall|k: int| 0 <= k < e.len() implies #[trigger] slots_view(ext@)[k] == e[k] by {
                    if k < ord {
                        assert(ext@[k] == None::<Arc<T>>);
                    } else if k < ord + n {
                        assert(slot_view(ext@[self.order + (k - ord)]) == Some(tv[k - ord]));
                    }
                }
            }
        }
        let ghost start_state = *self;
        let elen = ext.len();
        let mut j: usize = 0;
        while j <= n
            invariant
                self.wf_table(),
                self.order == start_state.order,
                ord == self.order,
                self.fed == start_state.fed + j,
                start_state.fed + n + 1 <= usize::MAX,
                j <= n + 1,
                start_state.closed(),
                slots_view(ext@) == e,
                e == extended(ord, tv),
                ext@.len() == ord + n + 1,
                elen == ext@.len(),
                ext@[ord + n] == None::<Arc<T>>,
                forall|w: Seq<Option<T::V>>, o: Option<T::V>| #[trigger] self.weight(w, o) == start_state.weight(w, o)
                    + occurrences(ord, tv, w, o, j as nat),
                forall|w: Seq<Option<T::V>>| #[trigger] self.has_window(w) <==> (start_state.has_window(w)
                    || exists|jj: int| 0 <= jj < j && #[trigger] window_at(ord, tv, jj) == w),
                forall|w: Seq<Option<T::V>>, v: T::V| #[trigger] self.weight(w, Some(v)) > 0
                    ==> (self.is_live(slide(w, Some(v))) || (j <= n && slide(w, Some(v)) == window_at(ord, tv, j as int))),
            decreases n + 1 - j,
        {
            let mut key: Vec<ArcToken<T>> = Vec::new();
            let mut q: usize = j;
            let end = j + self.order;
            while q < end
                invariant
                    end == j + self.order,
                    j <= q <= end,
                    end < ext@.len(),
                    key@.len() == q - j,
                    forall|m: int| 0 <= m < q - j ==> #[trigger] key@[m] == ext@[j + m],
                decreases end - q,
            {
                key.push(share_slot(&ext[q]));
                q = q + 1;
            }
            let next = share_slot(&ext[end]);
            let ghost before = *self;
            let ghost w_j = window_at(ord, tv, j as int);
            let ghost n_j = next_at(ord, tv, j as int);
            proof {
                assert(slots_view(key@) =~= w_j);
                assert(slot_view(next) == n_j);
            }
            self.add(key, next);
            proof {
                let jn = (j + 1) as nat;
                assert forall|w: Seq<Option<T::V>>, o: Option<T::V>| #[trigger] self.weight(w, o) == start_state.weight(w, o)
                    + occurrences(ord, tv, w, o, jn) by {
                    assert(before.weight(w, o) == start_state.weight(w, o) + occurrences(ord, tv, w, o, j as nat));
                }
                assert forall|w: Seq<Option<T::V>>| #[trigger] self.has_window(w) <==> (start_state.has_window(w)
                    || exists|jj: int| 0 <= jj < jn && #[trigger] window_at(ord, tv, jj) == w) by {
                    if self.has_window(w) && !start_state.has_window(w) && w != w_j {
                        assert(before.has_window(w));
                        let jj = choose|jj: int| 0 <= jj < j && #[trigger] window_at(ord, tv, jj) == w;
                        assert(0 <= jj < jn);
                    }
                    if exists|jj: int| 0 <= jj < jn && #[trigger] window_at(ord, tv, jj) == w {
                        let jj = choose|jj: int| 0 <= jj < jn && #[trigger] window_at(ord, tv, jj) == w;
                        if jj < j {
                            assert(before.has_window(w));
                        }
                    }
                    if start_state.has_window(w) {
                        assert(before.has_window(w));
                    }
                }
                assert forall|a: Seq<Option<T::V>>, o: Option<T::V>| #[trigger] self.weight(a, o) >= before.weight(a, o) by {
                }
                assert(self.weight(w_j, n_j) > 0);
                assert(self.is_live(w_j));
                assert forall|w: Seq<Option<T::V>>, v: T::V| #[trigger] self.weight(w, Some(v)) > 0
                    implies (self.is_live(slide(w, Some(v))) || (jn <= n && slide(w, Some(v)) == window_at(ord, tv, jn as int))) by {
                    if before.weight(w, Some(v)) > 0 {
                        if before.is_live(slide(w, Some(v))) {
                            before.lemma_live_grows(self, slide(w, Some(v)));
                        }
                    } else {
                        assert(w == w_j && Some(v) == n_j);
                        assert(j < n) by {
                            if j == n {
                                assert(slots_view(ext@)[ord + n] == None::<T::V>);
                            }
                        }
                        assert(slide(w_j, n_j) =~= window_at(ord, tv, jn as int));
                    }
                }
            }
            j = j + 1;
        }
        self
    }

    /// The views of a sequence of shared tokens.
    pub open spec fn arcs_view(toks: Seq<Arc<T>>) -> Seq<T::V> {
        toks.map_values(|t: Arc<T>| t@)
    }

    /// Each token of `toks` was seen to follow the window reached before it,
    /// starting from `w`.
    pub open spec fn is_path(&self, w: Seq<Option<T::V>>, toks: Seq<T::V>) -> bool
        decreases toks.len(),
    {
        if toks.len() == 0 {
            true
        } else {
            self.is_path(w, toks.drop_last()) && self.weight(
                walk_end(w, toks.drop_last()),
                Some(toks.last()),
            ) > 0
        }
    }

    /// `toks` is a path from `w` after which the boundary was seen to follow.
    pub open spec fn is_walk(&self, w: Seq<Option<T::V>>, toks: Seq<T::V>) -> bool {
        self.is_path(w, toks) && self.weight(walk_end(w, toks), None) > 0
    }

    /// The window of `n` boundary slots.
    fn boundary_window(n: usize) -> (r: Vec<ArcToken<T>>)
        ensures
            slots_view(r@) == boundary::<T::V>(n as nat),
            r@.len() == n,
    {
        let mut r: Vec<ArcToken<T>> = Vec::new();
        let mut i: usize = 0;
        while i < n
            invariant
                i <= n,
                r@.len() == i,
                forall|k: int| 0 <= k < i ==> #[trigger] r@[k] == None::<Arc<T>>,
            decreases n - i,
        {
            r.push(None);
            i = i + 1;
        }
        proof {
            assert(slots_view(r@) =~= boundary::<T::V>(n as nat));
        }
        r
    }

    /// Sets the number of preceding tokens that select a follower, and gives
    /// the table an empty entry for the boundary window of that length
    /// (replacing one that was there).
    pub fn order(&mut self, order: usize) -> (r: &mut ArcChain<T>)
        requires
            old(self).wf(),
            order > 0,
        ensures
            r.wf(),
            r.order_spec() == order,
            r.fed_spec() == old(self).fed_spec(),
            forall|w: Seq<Option<T::V>>, o: Option<T::V>| #[trigger] r.weight(w, o) == if w
                == boundary::<T::V>(order as nat) {
                0
            } else {
                old(self).weight(w, o)
            },
            forall|w: Seq<Option<T::V>>| #[trigger] r.has_window(w) <==> (old(self).has_window(w)
                || w == boundary::<T::V>(order as nat)),
            *final(self) == *final(r),
    {
        let ghost old_map = self.map@;
        let start = Self::boundary_window(order);
        let ghost bv = slots_view(start@);
        let ghost empty = Seq::<Outcome<T>>::empty();
        match self.find(&start) {
            Some(i) => {
                let entry = &mut self.map[i];
                entry.1 = Vec::new();
                self.order = order;
                proof {
                    let e2 = self.map@[i as int];
                    assert(e2.1@ =~= empty);
                    assert(self.map@ =~= old_map.update(i as int, e2));
                    assert forall|w: Seq<Option<T::V>>, o: Option<T::V>| #[trigger] self.weight(w, o) == if w == bv { 0 } else { old(self).weight(w, o) } by {
                        lemma_sum_update(old_map, i as int, e2, entry_weight::<T>(w, o));
                        if w == bv {
                            old(self).lemma_weight_at(i as int, w, o);
                        }
                    }
                    assert forall|w: Seq<Option<T::V>>| #[trigger] self.has_window(w) <==> (old(self).has_window(w) || w == bv) by {
                        if old(self).has_window(w) {
                            let j = choose|j: int| 0 <= j < old_map.len() && slots_view(#[trigger] old_map[j].0@) == w;
                            assert(slots_view(self.map@[j].0@) == w);
                        }
                        if w == bv {
                            assert(slots_view(self.map@[i as int].0@) == w);
                        }
                        if self.has_window(w) {
                            let j = choose|j: int| 0 <= j < self.map@.len() && slots_view(#[trigger] self.map@[j].0@) == w;
                            assert(slots_view(old_map[j].0@) == w);
                        }
                    }
                    assert(self.has_window(self.start()));
                    assert forall|a: int| 0 <= a < self.map@.len() implies total_of(#[trigger] self.map@[a].1@) <= self.fed by {
                        if a != i {
                            assert(total_of(old_map[a].1@) <= old(self).fed);
                        }
                    }
                }
            },
            None => {
                self.map.push((start, Vec::new()));
                self.order = order;
                proof {
                    let e = self.map@[old_map.len() as int];
                    assert(e.1@ =~= empty);
                    assert(self.map@ =~= old_map.push(e));
                    assert forall|w: Seq<Option<T::V>>, o: Option<T::V>| #[trigger] self.weight(w, o) == if w == bv { 0 } else { old(self).weight(w, o) } by {
                        lemma_sum_push(old_map, e, entry_weight::<T>(w, o));
                        if w == bv {
                            old(self).lemma_weight_absent(w, o);
                        }
                    }
                    assert forall|w: Seq<Option<T::V>>| #[trigger] self.has_window(w) <==> (old(self).has_window(w) || w == bv) by {
                        if old(self).has_window(w) {
                            let j = choose|j: int| 0 <= j < old_map.len() && slots_view(#[trigger] old_map[j].0@) == w;
                            assert(slots_view(self.map@[j].0@) == w);
                        }
                        if w == bv {
                            assert(slots_view(self.map@[old_map.len() as int].0@) == w);
                        }
                        if self.has_window(w) {
                            let j = choose|j: int| 0 <= j < self.map@.len() && slots_view(#[trigger] self.map@[j].0@) == w;
                            if j < old_map.len() {
                                assert(slots_view(old_map[j].0@) == w);
                            }
                        }
                    }
                    assert(self.has_window(self.start()));
                    assert forall|a: int| 0 <= a < self.map@.len() implies total_of(#[trigger] self.map@[a].1@) <= self.fed by {
                        if a < old_map.len() {
                            assert(total_of(old_map[a].1@) <= old(self).fed);
                        }
                    }
                }
            },
        }
        proof {
            assert forall|w: Seq<Option<T::V>>, v: T::V| #[trigger] self.weight(w, Some(v)) > 0
                implies self.is_live(slide(w, Some(v))) by {
                let sw = slide(w, Some(v));
                assert(old(self).weight(w, Some(v)) > 0);
                assert(old(self).is_live(sw));
                let o = choose|o: Option<T::V>| #[trigger] old(self).weight(sw, o) > 0;
                assert(sw.last() == Some(v));
                assert(sw != bv) by {
                    if sw == bv {
                        assert(bv[sw.len() - 1] == None::<T::V>);
                    }
                }
                assert(self.weight(sw, o) > 0);
            }
            assert forall|a: int| 0 <= a < self.map@.len() && self.map@[a].1@.len() == 0 implies slots_view(
                #[trigger] self.map@[a].0@,
            ) == boundary::<T::V>(self.map@[a].0@.len()) by {
                if a < old_map.len() && slots_view(self.map@[a].0@) != bv {
                    assert(old_map[a] == self.map@[a]);
                } else {
                    assert(slots_view(self.map@[a].0@) == bv);
                    assert(slots_view(self.map@[a].0@).len() == self.map@[a].0@.len());
                }
            }
            assert(self.wf_table());
        }
        self
    }

    /// Whether nothing has been fed since the current order was set.
    pub fn is_empty(&self) -> (r: bool)
        requires
            self.wf(),
        ensures
            r == self.is_empty_spec(),
    {
        let start = Self::boundary_window(self.order);
        match self.find(&start) {
            Some(i) => {
                let r = self.map[i].1.len() == 0;
                proof {
                    let d = self.map@[i as int].1@;
                    if r {
                        assert forall|o: Option<T::V>| #[trigger] self.weight(self.start(), o) == 0 by {
                            self.lemma_weight_at(i as int, self.start(), o);
                            assert(d =~= Seq::<Outcome<T>>::empty());
                        }
                    } else {
                        let o = slot_view(d[0].0);
                        self.lemma_weight_at(i as int, self.start(), o);
                        lemma_sum_ge(d, 0, outcome_weight::<T>(o));
                        assert(self.weight(self.start(), o) > 0);
                    }
                }
                r
            },
            None => true,
        }
    }

    /// Walks the table from the window `curs`, appending each token drawn to
    /// `ret`, until the boundary is drawn.
    fn walk_from(&self, curs: Vec<ArcToken<T>>, ret: Vec<Arc<T>>) -> (r: Vec<Arc<T>>)
        requires
            self.wf(),
            curs@.len() == self.order_spec(),
            self.is_live(slots_view(curs@)),
        ensures
            r@.len() >= ret@.len(),
            r@.take(ret@.len() as int) == ret@,
            self.is_walk(slots_view(curs@), Self::arcs_view(r@.skip(ret@.len() as int))),
    {
        let ghost w0 = slots_view(curs@);
        let ghost pre = ret@;
        let ghost mut path: Seq<Arc<T>> = Seq::empty();
        let mut curs = curs;
        let mut ret = ret;
        loop
            invariant
                self.wf(),
                curs@.len() == self.order_spec(),
                self.is_live(slots_view(curs@)),
                ret@ == pre + path,
                slots_view(curs@) == walk_end(w0, Self::arcs_view(path)),
                self.is_path(w0, Self::arcs_view(path)),
            ensures
                ret@ == pre + path,
                self.is_walk(w0, Self::arcs_view(path)),
            decreases usize::MAX - ret@.len(),
        {
            let i = match self.find(&curs) {
                Some(i) => i,
                None => {
                    proof {
                        let o = choose|o: Option<T::V>| #[trigger] self.weight(slots_view(curs@), o) > 0;
                        self.lemma_weight_absent(slots_view(curs@), o);
                    }
                    return ret;
                },
            };
            let d = &self.map[i].1;
            let ghost cv = slots_view(curs@);
            proof {
                let o = choose|o: Option<T::V>| #[trigger] self.weight(cv, o) > 0;
                self.lemma_weight_at(i as int, cv, o);
                if d@.len() == 0 {
                    assert(d@ =~= Seq::<Outcome<T>>::empty());
                }
                lemma_sum_ge(d@, 0, weight_size::<ArcToken<T>>());
                assert(d@[0].1 > 0);
            }
            let total = total_weight(d);
            let draw = draw_below(total);
            let k = select(d, draw);
            let next = share_slot(&d[k].0);
            let ghost nv = slot_view(next);
            proof {
                self.lemma_weight_at(i as int, cv, nv);
                lemma_sum_ge(d@, k as int, outcome_weight::<T>(nv));
                assert(d@[k as int].1 > 0);
                assert(self.weight(cv, nv) > 0);
            }
            let mut slid: Vec<ArcToken<T>> = Vec::new();
            let mut q: usize = 1;
            while q < curs.len()
                invariant
                    1 <= q <= curs@.len(),
                    slid@.len() == q - 1,
                    forall|m: int| 0 <= m < q - 1 ==> #[trigger] slid@[m] == curs@[m + 1],
                decreases curs@.len() - q,
            {
                slid.push(share_slot(&curs[q]));
                q = q + 1;
            }
            slid.push(share_slot(&next));
            proof {
                assert(slots_view(slid@) =~= slide(cv, nv));
            }
            match next {
                Some(a) => {
                    let ghost old_path = path;
                    ret.push(a);
                    proof {
                        vstd::std_specs::vec::axiom_spec_len(&ret);
                        path = path.push(a);
                        assert(ret@ =~= pre + path);
                        let pv = Self::arcs_view(path);
                        assert(pv.drop_last() =~= Self::arcs_view(old_path));
                        assert(pv.last() == a@);
                        assert(self.is_live(slide(cv, Some(a@))));
                    }
                    curs = slid;
                },
                None => {
                    break;
                },
            }
        }
        proof {
            assert(ret@.take(pre.len() as int) =~= pre);
            assert(ret@.skip(pre.len() as int) =~= path);
        }
        ret
    }

    /// Generates a sequence of tokens by a weighted random walk from the
    /// boundary window until the boundary is drawn again.
    pub fn generate(&self) -> (r: Vec<Arc<T>>)
        requires
            self.wf(),
            !self.is_empty_spec(),
        ensures
            self.is_walk(self.start(), Self::arcs_view(r@)),
    {
        let start = Self::boundary_window(self.order);
        let r = self.walk_from(start, Vec::new());
        proof {
            assert(r@.skip(0) =~= r@);
        }
        r
    }

    /// Generates a sequence that starts with `token`, walking from the window
    /// of `order` copies of it. Empty when that window is not in the table.
    pub fn generate_from_token(&self, token: T) -> (r: Vec<Arc<T>>)
        requires
            self.wf(),
        ensures
            !self.has_window(repeated(self.order_spec(), token@)) ==> r@.len() == 0,
            self.has_window(repeated(self.order_spec(), token@)) ==> {
                &&& r@.len() >= 1
                &&& r@[0]@ == token@
                &&& self.is_walk(repeated(self.order_spec(), token@), Self::arcs_view(r@.skip(1)))
            },
    {
        let ghost tv = token@;
        let token = Arc::new(token);
        let mut seed: Vec<ArcToken<T>> = Vec::new();
        let mut i: usize = 0;
        while i < self.order
            invariant
                i <= self.order,
                seed@.len() == i,
                forall|k: int| 0 <= k < i ==> #[trigger] seed@[k] == Some(token),
            decreases self.order - i,
        {
            seed.push(Some(share(&token)));
            i = i + 1;
        }
        let ghost sv = repeated(self.order_spec(), tv);
        proof {
            assert(slots_view(seed@) =~= sv);
        }
        match self.find(&seed) {
            None => Vec::new(),
            Some(j) => {
                proof {
                    let d = self.map@[j as int].1@;
                    if d.len() == 0 {
                        assert(sv[0] == Some(tv));
                        assert(boundary::<T::V>(self.map@[j as int].0@.len())[0] == None::<T::V>);
                    }
                    let o = slot_view(d[0].0);
                    self.lemma_weight_at(j as int, sv, o);
                    lemma_sum_ge(d, 0, outcome_weight::<T>(o));
                    assert(self.weight(sv, o) > 0);
                }
                let mut ret: Vec<Arc<T>> = Vec::new();
                ret.push(share(&token));
                let r = self.walk_from(seed, ret);
                proof {
                    assert(r@[0] == r@.take(1)[0]);
                }
                r
            },
        }
    }

    /// How many transitions have been recorded in all.
    pub(crate) fn recorded(&self) -> (r: usize)
        ensures
            r == self.fed_spec(),
    {
        self.fed
    }

}

} // verus!
