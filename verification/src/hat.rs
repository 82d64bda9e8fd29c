//! A hat to draw items from in a random order without repeats.

use vstd::prelude::*;

verus! {

/// The indices `0..n` in order.
pub open spec fn index_range(n: nat) -> Seq<usize> {
    Seq::new(n, |i: int| i as usize)
}

/// A hat that you can pull items from, in a random sequence, without repeats.
/// After all of the items have been pulled, the hat is refilled and shuffled,
/// so you can keep pulling indefinitely.
pub struct Hat<T: Clone> {
    items: Vec<T>,
    hat: Vec<usize>,
}

/// A shuffled hat holds every index of `0..n` exactly once: its draws, taken
/// from its end, visit each item once before any repeats.
pub proof fn lemma_fresh_hat_holds_each_index_once(h: Seq<usize>, n: nat)
    requires
        n <= usize::MAX,
        h.to_multiset() == index_range(n).to_multiset(),
    ensures
        h.len() == n,
        h.no_duplicates(),
        forall|i: usize| i < n ==> #[trigger] h.contains(i),
        forall|k: int| 0 <= k < h.len() ==> h[k] < n,
{
    broadcast use vstd::seq_lib::group_to_multiset_ensures;

    let r = index_range(n);
    assert forall|a: int, b: int| 0 <= a < r.len() && 0 <= b < r.len() && a != b implies r[a] != r[b] by {}
    assert(r.no_duplicates());
    h.to_multiset_ensures();
    r.to_multiset_ensures();
    r.lemma_multiset_has_no_duplicates();
    h.lemma_multiset_has_no_duplicates_conv();
    assert forall|i: usize| i < n implies #[trigger] h.contains(i) by {
        assert(r[i as int] == i);
        assert(r.contains(i));
        assert(r.to_multiset().count(i) > 0);
        assert(h.to_multiset().count(i) > 0);
    }
    assert forall|k: int| 0 <= k < h.len() implies h[k] < n by {
        assert(h.contains(h[k]));
        assert(h.to_multiset().count(h[k]) > 0);
        assert(r.to_multiset().count(h[k]) > 0);
        assert(r.contains(h[k]));
    }
}

/// After `j` draws, each taking the last pending index out, the pending
/// indices are the first `n - j` of the full hat `ps[0]`, and draw `t` took
/// its index `n - 1 - t`.
proof fn lemma_draws_take_from_the_end(ps: Seq<Seq<usize>>, drawn: Seq<usize>, n: nat, j: nat)
    requires
        ps.len() == n + 1,
        drawn.len() == n,
        ps[0].len() == n,
        forall|t: int| 0 <= t < n ==> drawn[t] == #[trigger] ps[t].last() && ps[t + 1] == ps[t].drop_last(),
        j <= n,
    ensures
        ps[j as int] == ps[0].take(n - j),
        forall|t: int| 0 <= t < j ==> #[trigger] drawn[t] == ps[0][n - 1 - t],
    decreases j,
{
    if j == 0 {
        assert(ps[0].take(n as int) =~= ps[0]);
    } else {
        lemma_draws_take_from_the_end(ps, drawn, n, (j - 1) as nat);
        let prev = ps[j - 1];
        assert(prev == ps[0].take(n - j + 1));
        assert(drawn[j - 1] == prev.last());
        assert(ps[j as int] == prev.drop_last());
        assert(prev.drop_last() =~= ps[0].take(n - j));
    }
}

/// Each round of the hat yields every item once: from a full hat (its
/// pending indices a permutation of `0..n`), `n` draws, each taking the last
/// pending index out, take every index of `0..n` exactly once and leave the
/// hat empty, ready to be refilled.
pub proof fn lemma_round_draws_each_index_once(ps: Seq<Seq<usize>>, drawn: Seq<usize>, n: nat)
    requires
        n <= usize::MAX,
        ps.len() == n + 1,
        drawn.len() == n,
        ps[0].to_multiset() == index_range(n).to_multiset(),
        forall|t: int| 0 <= t < n ==> drawn[t] == #[trigger] ps[t].last() && ps[t + 1] == ps[t].drop_last(),
    ensures
        drawn.to_multiset() == index_range(n).to_multiset(),
        drawn.no_duplicates(),
        forall|i: usize| i < n ==> #[trigger] drawn.contains(i),
        ps[n as int].len() == 0,
{
    let p = ps[0];
    lemma_fresh_hat_holds_each_index_once(p, n);
    lemma_draws_take_from_the_end(ps, drawn, n, n);
    assert(drawn =~= p.reverse());
    p.lemma_reverse_to_multiset();
    assert forall|a: int, b: int| 0 <= a < drawn.len() && 0 <= b < drawn.len() && a != b implies drawn[a]
        != drawn[b] by {
        assert(drawn[a] == p[n - 1 - a] && drawn[b] == p[n - 1 - b]);
    }
    assert forall|i: usize| i < n implies #[trigger] drawn.contains(i) by {
        assert(p.contains(i));
        let k = choose|k: int| 0 <= k < p.len() && p[k] == i;
        assert(drawn[n - 1 - k] == i);
    }
}

impl<T: Clone> Hat<T> {
    /// The items of the hat.
    pub closed spec fn items_view(&self) -> Seq<T> {
        self.items@
    }

    /// The indices of the items still in the hat; the next draw takes the
    /// last one.
    pub closed spec fn pending(&self) -> Seq<usize> {
        self.hat@
    }

    /// The indices in the hat are distinct indices of items.
    pub open spec fn wf(&self) -> bool {
        &&& self.items_view().len() <= usize::MAX
        &&& self.pending().no_duplicates()
        &&& forall|k: int|
            0 <= k < self.pending().len() ==> (#[trigger] self.pending()[k]) < self.items_view().len()
    }

    /// `r` is what a draw from `before` gives and `after` what is left: the
    /// item at the last pending index, which leaves the hat, or, when the hat
    /// has run out of indices, the item at the last index of a reshuffled
    /// full hat. The items stay as they are.
    pub open spec fn drew(before: Self, r: Option<T>, after: Self) -> bool {
        &&& after.items_view() == before.items_view()
        &&& before.pending().len() > 0 ==> {
            &&& r matches Some(v) && cloned(before.items_view()[before.pending().last() as int], v)
            &&& after.pending() == before.pending().drop_last()
        }
        &&& before.pending().len() == 0 && before.items_view().len() > 0 ==> exists|refill: Seq<usize>|
            #![trigger refill.to_multiset()]
            {
                &&& refill.to_multiset() == index_range(before.items_view().len()).to_multiset()
                &&& r matches Some(v) && cloned(before.items_view()[refill.last() as int], v)
                &&& after.pending() == refill.drop_last()
            }
    }

    /// After the first draw of a round, the draws go on taking the pending
    /// indices of the round's full hat `p0` from its end.
    proof fn lemma_round_steps(hs: Seq<Self>, rs: Seq<Option<T>>, p0: Seq<usize>, n: nat, j: nat)
        requires
            n > 0,
            hs.len() == n + 1,
            rs.len() == n,
            p0.len() == n,
            1 <= j <= n,
            hs[1].pending() == p0.take(n - 1),
            hs[1].items_view() == hs[0].items_view(),
            rs[0] matches Some(v) && cloned(hs[0].items_view()[p0[n - 1] as int], v),
            forall|t: int| #![trigger rs[t]] 0 <= t < n ==> Self::drew(hs[t], rs[t], hs[t + 1]),
        ensures
            hs[j as int].pending() == p0.take(n - j),
            hs[j as int].items_view() == hs[0].items_view(),
            forall|t: int| 0 <= t < j ==> (#[trigger] rs[t] matches Some(v) && cloned(hs[0].items_view()[p0[n - 1 - t] as int], v)),
        decreases j,
    {
        if j > 1 {
            Self::lemma_round_steps(hs, rs, p0, n, (j - 1) as nat);
            let t = j - 1;
            let before = hs[t as int];
            let rt = rs[t as int];
            assert(Self::drew(hs[t as int], rs[t as int], hs[t + 1]));
            assert(before.pending().len() == n - t);
            assert(before.pending().last() == p0[n - 1 - t]);
            assert(before.pending().drop_last() =~= p0.take(n - j));
        }
    }

    /// Each round of the hat yields every item once: from a full hat, or from
    /// one that has run out of indices, the next `n` draws (`n` the number of
    /// items) give the items in some order that takes each index of `0..n`
    /// exactly once.
    pub proof fn lemma_round_yields_each_item_once(hs: Seq<Self>, rs: Seq<Option<T>>)
        requires
            hs.len() >= 1,
            hs[0].items_view().len() > 0,
            hs[0].items_view().len() <= usize::MAX,
            hs.len() == hs[0].items_view().len() + 1,
            rs.len() == hs[0].items_view().len(),
            hs[0].pending().len() == 0 || hs[0].pending().to_multiset() == index_range(
                hs[0].items_view().len(),
            ).to_multiset(),
            forall|t: int| #![trigger rs[t]] 0 <= t < rs.len() ==> Self::drew(hs[t], rs[t], hs[t + 1]),
        ensures
            exists|order: Seq<usize>|
                {
                    &&& order.len() == rs.len()
                    &&& order.to_multiset() == index_range(rs.len()).to_multiset()
                    &&& forall|t: int|
                        0 <= t < rs.len() ==> (#[trigger] rs[t] matches Some(v) && cloned(
                            hs[0].items_view()[order[t] as int],
                            v,
                        ))
                },
            hs[rs.len() as int].pending().len() == 0,
            hs[rs.len() as int].items_view() == hs[0].items_view(),
    {
        let n = hs[0].items_view().len();
        let r0 = rs[0];
        assert(Self::drew(hs[0], rs[0], hs[1]));
        let p0 = if hs[0].pending().len() > 0 {
            hs[0].pending()
        } else {
            choose|refill: Seq<usize>|
                #![trigger refill.to_multiset()]
                {
                    &&& refill.to_multiset() == index_range(n).to_multiset()
                    &&& rs[0] matches Some(v) && cloned(hs[0].items_view()[refill.last() as int], v)
                    &&& hs[1].pending() == refill.drop_last()
                }
        };
        assert(p0.to_multiset() == index_range(n).to_multiset());
        lemma_fresh_hat_holds_each_index_once(p0, n);
        assert(p0.drop_last() =~= p0.take(n - 1));
        Self::lemma_round_steps(hs, rs, p0, n, n);
        let order = p0.reverse();
        p0.lemma_reverse_to_multiset();
        assert forall|t: int| 0 <= t < rs.len() implies (#[trigger] rs[t] matches Some(v) && cloned(
            hs[0].items_view()[order[t] as int],
            v,
        )) by {
            assert(order[t] == p0[n - 1 - t]);
        }
        assert(order.len() == rs.len());
        assert(order.to_multiset() == index_range(rs.len()).to_multiset());
    }

    /// Round `k` of `rs` (the `n` draws from `k * n` on) gives the items in
    /// some order that takes each index of `0..n` exactly once.
    pub open spec fn round_yields(items: Seq<T>, rs: Seq<Option<T>>, k: int, n: int) -> bool {
        exists|order: Seq<usize>|
            {
                &&& order.len() == n
                &&& order.to_multiset() == index_range(n as nat).to_multiset()
                &&& forall|t: int|
                    0 <= t < n ==> (#[trigger] rs[k * n + t] matches Some(v) && cloned(items[order[t] as int], v))
            }
    }

    /// Every round of the hat yields every item once: from a full hat, or
    /// from one that has run out of indices, each of the next `m` rounds of
    /// `n` draws (`n` the number of items) gives the items in some order that
    /// takes each index of `0..n` exactly once.
    pub proof fn lemma_every_round_yields_each_item_once(hs: Seq<Self>, rs: Seq<Option<T>>, m: nat)
        requires
            hs.len() >= 1,
            hs[0].items_view().len() > 0,
            hs[0].items_view().len() <= usize::MAX,
            hs.len() == m * hs[0].items_view().len() + 1,
            rs.len() == m * hs[0].items_view().len(),
            hs[0].pending().len() == 0 || hs[0].pending().to_multiset() == index_range(
                hs[0].items_view().len(),
            ).to_multiset(),
            forall|t: int| #![trigger rs[t]] 0 <= t < rs.len() ==> Self::drew(hs[t], rs[t], hs[t + 1]),
        ensures
            forall|k: int|
                0 <= k < m ==> #[trigger] Self::round_yields(
                    hs[0].items_view(),
                    rs,
                    k,
                    hs[0].items_view().len() as int,
                ),
        decreases m,
    {
        let n = hs[0].items_view().len();
        let items = hs[0].items_view();
        if m > 0 {
            assert(m * n == (m - 1) * n + n) by (nonlinear_arith);
            assert(n <= m * n) by (nonlinear_arith)
                requires
                    m > 0,
            ;
            let h0 = hs.take(n + 1 as int);
            let r0 = rs.take(n as int);
            assert forall|t: int| #![trigger r0[t]] 0 <= t < r0.len() implies Self::drew(h0[t], r0[t], h0[t + 1]) by {
                assert(r0[t] == rs[t]);
                let x = rs[t];
            }
            Self::lemma_round_yields_each_item_once(h0, r0);
            let h1 = hs.skip(n as int);
            let r1 = rs.skip(n as int);
            assert(h1[0] == hs[n as int]);
            assert forall|t: int| #![trigger r1[t]] 0 <= t < r1.len() implies Self::drew(h1[t], r1[t], h1[t + 1]) by {
                assert(r1[t] == rs[t + n]);
                let x = rs[t + n];
                assert(h1[t] == hs[t + n] && h1[t + 1] == hs[t + n + 1]);
            }
            Self::lemma_every_round_yields_each_item_once(h1, r1, (m - 1) as nat);
            assert forall|k: int| 0 <= k < m implies #[trigger] Self::round_yields(items, rs, k, n as int) by {
                if k == 0 {
                    let order = choose|order: Seq<usize>|
                        {
                            &&& order.len() == r0.len()
                            &&& order.to_multiset() == index_range(r0.len()).to_multiset()
                            &&& forall|t: int|
                                0 <= t < r0.len() ==> (#[trigger] r0[t] matches Some(v) && cloned(
                                    h0[0].items_view()[order[t] as int],
                                    v,
                                ))
                        };
                    assert forall|t: int| 0 <= t < n implies (#[trigger] rs[k * n + t] matches Some(v) && cloned(
                        items[order[t] as int],
                        v,
                    )) by {
                        assert(k * n + t == t);
                        assert(r0[t] == rs[t]);
                    }
                } else {
                    let k1 = k - 1;
                    assert(Self::round_yields(items, r1, k1, n as int));
                    let order = choose|order: Seq<usize>|
                        {
                            &&& order.len() == n
                            &&& order.to_multiset() == index_range(n as nat).to_multiset()
                            &&& forall|t: int|
                                0 <= t < n ==> (#[trigger] r1[k1 * n + t] matches Some(v) && cloned(
                                    items[order[t] as int],
                                    v,
                                ))
                        };
                    assert forall|t: int| 0 <= t < n implies (#[trigger] rs[k * n + t] matches Some(v) && cloned(
                        items[order[t] as int],
                        v,
                    )) by {
                        assert(k * n + t == k1 * n + t + n) by (nonlinear_arith)
                            requires
                                k1 == k - 1,
                        ;
                        assert(k1 * n + t < (m - 1) * n) by (nonlinear_arith)
                            requires
                                0 <= k1 < m - 1,
                                0 <= t < n,
                        ;
                        assert(r1[k1 * n + t] == rs[k * n + t]);
                    }
                }
            }
        }
    }

    /// A full hat for `items`, shuffled.
    pub fn new(items: Vec<T>) -> (h: Self)
        ensures
            h.items_view() == items@,
            h.pending().to_multiset() == index_range(items@.len()).to_multiset(),
            h.wf(),
    {
        let n = items.len();
        let hat = Self::get_hat(n);
        let h = Self { items, hat };
        proof {
            lemma_fresh_hat_holds_each_index_once(h.pending(), h.items_view().len());
        }
        h
    }

    /// The indices `0..len` in a random order.
    fn get_hat(len: usize) -> (hat: Vec<usize>)
        ensures
            hat@.to_multiset() == index_range(len as nat).to_multiset(),
    {
        let mut hat: Vec<usize> = Vec::new();
        let mut i: usize = 0;
        while i < len
            invariant
                i <= len,
                hat@ == index_range(i as nat),
            decreases len - i,
        {
            hat.push(i);
            i += 1;
            assert(hat@ =~= index_range(i as nat));
        }
        crate::random::shuffle_indices(&mut hat);
        hat
    }

    /// The number of items.
    pub fn len(&self) -> (n: usize)
        ensures
            n == self.items_view().len(),
    {
        self.items.len()
    }

    /// The hat has no items at all.
    pub fn is_empty(&self) -> (r: bool)
        ensures
            r == (self.items_view().len() == 0),
    {
        self.items.len() == 0
    }

    /// Pulls the next item: a clone of the item whose index is last in the
    /// hat, removing that index. When the hat has run out it is first refilled
    /// with every index, shuffled. `None` only when there are no items.
    pub fn next(&mut self) -> (r: Option<T>)
        requires
            old(self).wf(),
        ensures
            final(self).wf(),
            final(self).items_view() == old(self).items_view(),
            r is Some <==> old(self).items_view().len() > 0,
            old(self).pending().len() > 0 ==> {
                let idx = old(self).pending().last();
                &&& r matches Some(v) && cloned(old(self).items_view()[idx as int], v)
                &&& final(self).pending() == old(self).pending().drop_last()
            },
            old(self).pending().len() == 0 && old(self).items_view().len() == 0 ==> r is None
                && final(self).pending() == old(self).pending(),
            old(self).pending().len() == 0 && old(self).items_view().len() > 0 ==> exists|
                refill: Seq<usize>,
            |
                #![trigger refill.to_multiset()]
                {
                    &&& refill.to_multiset() == index_range(old(self).items_view().len()).to_multiset()
                    &&& r matches Some(v) && cloned(old(self).items_view()[refill.last() as int], v)
                    &&& final(self).pending() == refill.drop_last()
                },
            Self::drew(*old(self), r, *final(self)),
    {
        if self.hat.len() == 0 {
            if self.items.len() == 0 {
                return None;
            }
            // the hat is empty
            self.hat = Self::get_hat(self.items.len());
            proof {
                lemma_fresh_hat_holds_each_index_once(self.hat@, self.items@.len());
            }
        }
        let ghost before = self.hat@;
        let idx = self.hat.pop().unwrap();
        proof {
            assert(before.drop_last() == self.hat@);
            assert forall|k: int| 0 <= k < self.hat@.len() implies (#[trigger] self.hat@[k]) < self.items@.len() by {
                assert(self.hat@[k] == before[k]);
            }
            assert forall|a: int, b: int| 0 <= a < b < self.hat@.len() implies self.hat@[a] != self.hat@[b] by {
                assert(self.hat@[a] == before[a] && self.hat@[b] == before[b]);
            }
            assert(idx == before[before.len() - 1]);
            assert(0 <= before.len() - 1 < before.len());
        }
        Some(self.items[idx].clone())
    }
}

/// Pulls the next piece of seed text from the hat, which must hold some.
pub fn pull_seed_content(seeds: &mut Hat<String>) -> (text: String)
    requires
        old(seeds).wf(),
        old(seeds).items_view().len() > 0,
    ensures
        final(seeds).wf(),
        final(seeds).items_view() == old(seeds).items_view(),
        exists|i: int| 0 <= i < old(seeds).items_view().len() && text == old(seeds).items_view()[i],
        old(seeds).pending().len() > 0 ==> {
            &&& text == old(seeds).items_view()[old(seeds).pending().last() as int]
            &&& final(seeds).pending() == old(seeds).pending().drop_last()
        },
        old(seeds).pending().len() == 0 ==> exists|refill: Seq<usize>|
            #![trigger refill.to_multiset()]
            {
                &&& refill.to_multiset() == index_range(old(seeds).items_view().len()).to_multiset()
                &&& text == old(seeds).items_view()[refill.last() as int]
                &&& final(seeds).pending() == refill.drop_last()
            },
{
    let ghost before = *seeds;
    let r = seeds.next();
    let text = r.unwrap();
    proof {
        if before.pending().len() > 0 {
            let idx = before.pending().last();
            assert(before.pending().contains(idx));
            assert(cloned(before.items_view()[idx as int], text));
            assert(text == before.items_view()[idx as int]);
        } else {
            let refill = choose|refill: Seq<usize>|
                #![trigger refill.to_multiset()]
                {
                    &&& refill.to_multiset() == index_range(before.items_view().len()).to_multiset()
                    &&& r matches Some(v) && cloned(before.items_view()[refill.last() as int], v)
                    &&& final(seeds).pending() == refill.drop_last()
                };
            lemma_fresh_hat_holds_each_index_once(refill, before.items_view().len());
            assert(text == before.items_view()[refill.last() as int]);
        }
    }
    text
}

} // verus!
