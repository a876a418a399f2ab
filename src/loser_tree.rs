//! A loser tree over `k` slots: `O(1)` access to the slot of least effective
//! key and `O(log k)` replay after the winning slot changes.
//!
//! Positions `1..k` are the internal nodes and positions `k..2k` the leaves:
//! slot `i` is the leaf at position `k + i`, and the children of position `p`
//! are `2p` and `2p + 1`. `losers[0]` names the overall winner and `losers[p]`
//! the loser of the match at internal node `p`.

use vstd::prelude::*;

verus! {

/// The key of a slot that holds nothing or belongs to the next run.
pub const INF: i64 = i64::MAX;

/// A slot compares as its value, or as `INF` when frozen.
pub open spec fn effective_key(slot: (i64, bool)) -> int {
    if slot.1 {
        INF as int
    } else {
        slot.0 as int
    }
}

/// Position `n` lies on the path from position `l` up to the root.
pub open spec fn in_subtree(n: int, l: int) -> bool
    decreases l,
{
    if l < 1 || l < n {
        false
    } else if l == n {
        true
    } else {
        in_subtree(n, l / 2)
    }
}

proof fn lemma_subtree_parent(n: int, l: int)
    requires
        n >= 2,
        in_subtree(n, l),
    ensures
        in_subtree(n / 2, l),
    decreases l,
{
    if l != n {
        lemma_subtree_parent(n, l / 2);
    } else {
        assert(in_subtree(n / 2, n / 2));
    }
}

proof fn lemma_subtree_order(a: int, b: int, l: int)
    requires
        1 <= a <= b,
        in_subtree(a, l),
        in_subtree(b, l),
    ensures
        in_subtree(a, b),
    decreases l,
{
    if l != b {
        lemma_subtree_order(a, b, l / 2);
    }
}

proof fn lemma_siblings_disjoint(q: int, l: int)
    requires
        q >= 1,
    ensures
        !(in_subtree(2 * q, l) && in_subtree(2 * q + 1, l)),
{
    if in_subtree(2 * q, l) && in_subtree(2 * q + 1, l) {
        lemma_subtree_order(2 * q, 2 * q + 1, l);
        assert((2 * q + 1) / 2 == q);
        assert(in_subtree(2 * q, q));
    }
}

/// The winner of position `n` while the tree is built: a leaf's own slot, or
/// the winner recorded for an internal node.
spec fn wv(k: int, ws: Seq<usize>, n: int) -> int {
    if n >= k {
        n - k
    } else {
        ws[n] as int
    }
}

pub struct LoserTree {
    /// `losers[0]` is the winner, `losers[p]` the loser at internal node `p`.
    pub losers: Vec<usize>,
    /// The slots: a value and whether it is frozen.
    pub work_area: Vec<(i64, bool)>,
    pub k: usize,
    /// The winner of the subtree at each position.
    pub win: Ghost<Seq<int>>,
}

impl LoserTree {
    pub open spec fn wf(&self) -> bool {
        &&& self.k >= 1
        &&& self.k < usize::MAX / 2
        &&& self.losers@.len() == self.k
        &&& self.work_area@.len() == self.k
        &&& forall|i: int| 0 <= i < self.k ==> #[trigger] self.losers@[i] < self.k
    }

    pub open spec fn slots(&self) -> Seq<(i64, bool)> {
        self.work_area@
    }

    pub open spec fn key_at(&self, i: int) -> int {
        effective_key(self.work_area@[i])
    }

    pub open spec fn winner(&self) -> int {
        self.losers@[0] as int
    }

    /// The winner is a slot of least effective key.
    pub open spec fn winner_is_least(&self) -> bool {
        &&& 0 <= self.winner() < self.slots().len()
        &&& forall|i: int| 0 <= i < self.slots().len() ==> self.key_at(self.winner()) <= #[trigger] self.key_at(i)
    }

    /// The match at internal node `q` was decided correctly, while the tree is
    /// built.
    spec fn built_ok(&self, ws: Seq<usize>, q: int) -> bool {
        let k = self.k as int;
        let l = self.losers@[q] as int;
        &&& (l == wv(k, ws, 2 * q) && wv(k, ws, q) == wv(k, ws, 2 * q + 1)) || (l == wv(k, ws, 2 * q + 1)
            && wv(k, ws, q) == wv(k, ws, 2 * q))
        &&& self.key_at(wv(k, ws, q)) <= self.key_at(l)
    }

    /// The match at internal node `q` was decided correctly.
    pub closed spec fn node_ok(&self, q: int) -> bool {
        let w = self.win@;
        let l = self.losers@[q] as int;
        &&& (l == w[2 * q] && w[q] == w[2 * q + 1]) || (l == w[2 * q + 1] && w[q] == w[2 * q])
        &&& self.key_at(w[q]) <= self.key_at(l)
    }

    pub closed spec fn win_ok(&self, n: int) -> bool {
        let w = self.win@;
        &&& 0 <= w[n] < self.k
        &&& in_subtree(n, self.k + w[n])
    }

    /// Every match of the tree was decided correctly: the winner is a slot of
    /// least effective key.
    pub closed spec fn valid(&self) -> bool {
        let k = self.k as int;
        &&& self.wf()
        &&& self.win@.len() == 2 * k
        &&& forall|n: int| k <= n < 2 * k ==> #[trigger] self.win@[n] == n - k
        &&& forall|n: int| 1 <= n < 2 * k ==> #[trigger] self.win_ok(n)
        &&& forall|q: int| 1 <= q < k ==> #[trigger] self.node_ok(q)
        &&& self.losers@[0] as int == self.win@[1]
    }

    /// Along the path from the root to the winner's leaf, every subtree is won
    /// by the winner.
    proof fn lemma_winner_path(&self, n: int)
        requires
            self.valid(),
            1 <= n < 2 * self.k,
            in_subtree(n, self.k + self.win@[1]),
        ensures
            self.win@[n] == self.win@[1],
        decreases n,
    {
        if n > 1 {
            let q = n / 2;
            lemma_subtree_parent(n, self.k + self.win@[1]);
            self.lemma_winner_path(q);
            assert(self.node_ok(q));
            let sib = if n == 2 * q { 2 * q + 1 } else { 2 * q };
            if self.win@[n] != self.win@[1] {
                assert(self.win@[sib] == self.win@[1]);
                assert(self.win_ok(sib));
                lemma_siblings_disjoint(q, self.k + self.win@[1]);
            }
        }
    }

    /// The winner of the whole tree has a key no greater than that of the
    /// winner of any subtree.
    proof fn lemma_root_least(&self, n: int)
        requires
            self.valid(),
            1 <= n < 2 * self.k,
        ensures
            self.key_at(self.win@[1]) <= self.key_at(self.win@[n]),
        decreases n,
    {
        if n > 1 {
            let q = n / 2;
            self.lemma_root_least(q);
            assert(self.node_ok(q));
        }
    }

    /// In a valid tree the winner is a slot of least effective key.
    pub proof fn lemma_winner_is_least(&self)
        requires
            self.valid(),
        ensures
            0 <= self.winner() < self.slots().len(),
            forall|i: int| 0 <= i < self.slots().len() ==> self.key_at(self.winner()) <= #[trigger] self.key_at(i),
    {
        assert forall|i: int| 0 <= i < self.slots().len() implies self.key_at(self.winner())
            <= #[trigger] self.key_at(i) by {
            self.lemma_root_least(self.k + i);
            assert(self.win@[self.k + i] == i);
        }
    }

    /// Builds a tree over the given values, none of them frozen.
    pub fn new(initial_elements: Vec<i64>) -> (r: Self)
        requires
            initial_elements.len() >= 1,
            initial_elements.len() < usize::MAX / 2,
        ensures
            r.valid(),
            r.wf(),
            r.winner_is_least(),
            r.slots().len() == initial_elements.len(),
            forall|i: int| 0 <= i < initial_elements.len() ==> #[trigger] r.slots()[i] == (
            initial_elements[i], false),
    {
        let k = initial_elements.len();
        let mut work_area: Vec<(i64, bool)> = Vec::new();
        let mut i: usize = 0;
        while i < k
            invariant
                i <= k == initial_elements.len(),
                work_area@.len() == i,
                forall|j: int| 0 <= j < i ==> #[trigger] work_area@[j] == (initial_elements[j], false),
            decreases k - i,
        {
            work_area.push((initial_elements[i], false));
            i = i + 1;
        }
        let mut tree = LoserTree { losers: vec![0; k], work_area, k, win: Ghost(Seq::empty()) };
        tree.build();
        tree
    }

    pub fn get_winner_idx(&self) -> (r: usize)
        requires
            self.wf(),
        ensures
            r == self.winner(),
            r < self.slots().len(),
    {
        self.losers[0]
    }

    /// Clears every frozen bit and keeps the values; the tree must be built
    /// again before its winner means anything.
    pub fn unfreeze_all_elements(&mut self)
        requires
            old(self).wf(),
        ensures
            final(self).wf(),
            final(self).k == old(self).k,
            final(self).losers@ == old(self).losers@,
            final(self).slots().len() == old(self).slots().len(),
            forall|i: int| 0 <= i < old(self).slots().len() ==> #[trigger] final(self).slots()[i] == (
            old(self).slots()[i].0, false),
    {
        let mut i: usize = 0;
        while i < self.k
            invariant
                self.wf(),
                self.k == old(self).k,
                self.losers@ == old(self).losers@,
                i <= self.k,
                forall|j: int| 0 <= j < i ==> #[trigger] self.work_area@[j] == (
                old(self).work_area@[j].0, false),
                forall|j: int| i <= j < self.k ==> #[trigger] self.work_area@[j]
                    == old(self).work_area@[j],
            decreases self.k - i,
        {
            let v = self.work_area[i].0;
            self.work_area.set(i, (v, false));
            i = i + 1;
        }
    }

    /// The effective key of slot `idx`.
    pub fn get_key(&self, idx: usize) -> (r: i64)
        requires
            self.wf(),
            idx < self.slots().len(),
        ensures
            r == self.key_at(idx as int),
    {
        let (value, is_frozen) = self.work_area[idx];
        if is_frozen {
            INF
        } else {
            value
        }
    }

    /// Plays every match again, from the lowest internal nodes up to the root.
    /// On equal keys the left contestant wins.
    pub fn build(&mut self)
        requires
            old(self).wf(),
        ensures
            final(self).valid(),
            final(self).wf(),
            final(self).winner_is_least(),
            final(self).slots() == old(self).slots(),
    {
        let k = self.k;
        let mut wins: Vec<usize> = vec![0; k];
        let mut p: usize = k;
        while p > 1
            invariant
                1 <= p <= k,
                self.wf(),
                self.k == k,
                self.work_area@ == old(self).work_area@,
                wins@.len() == k,
                forall|n: int|
                    p <= n < 2 * k ==> 0 <= #[trigger] wv(k as int, wins@, n) < k && in_subtree(
                        n,
                        k + wv(k as int, wins@, n),
                    ),
                forall|q: int| p <= q < k ==> #[trigger] self.built_ok(wins@, q),
            decreases p,
        {
            p = p - 1;
            let left = 2 * p;
            let right = 2 * p + 1;
            let a = if left >= k { left - k } else { wins[left] };
            let b = if right >= k { right - k } else { wins[right] };
            proof {
                assert(wv(k as int, wins@, left as int) == a);
                assert(wv(k as int, wins@, right as int) == b);
                lemma_subtree_parent(left as int, k + a);
                lemma_subtree_parent(right as int, k + b);
                assert(left as int / 2 == p);
                assert(right as int / 2 == p);
            }
            let ka = self.get_key(a);
            let kb = self.get_key(b);
            let ghost old_wins = wins@;
            let ghost before = *self;
            if ka > kb {
                self.losers.set(p, a);
                wins.set(p, b);
            } else {
                self.losers.set(p, b);
                wins.set(p, a);
            }
            assert forall|n: int| p < n < 2 * k implies #[trigger] wv(k as int, wins@, n) == wv(k as int, old_wins, n) by {}
            assert forall|q: int| p <= q < k implies #[trigger] self.built_ok(wins@, q) by {
                assert(wv(k as int, wins@, 2 * q) == wv(k as int, old_wins, 2 * q));
                assert(wv(k as int, wins@, 2 * q + 1) == wv(k as int, old_wins, 2 * q + 1));
                if q == p {
                    assert(self.losers@[q] == if ka > kb { a } else { b });
                    assert(wv(k as int, wins@, q) == if ka > kb { b } else { a });
                } else {
                    assert(before.built_ok(old_wins, q));
                    assert(self.losers@[q] == before.losers@[q]);
                    assert(wv(k as int, wins@, 2 * q) == wv(k as int, old_wins, 2 * q));
                    assert(wv(k as int, wins@, 2 * q + 1) == wv(k as int, old_wins, 2 * q + 1));
                    assert(wv(k as int, wins@, q) == wv(k as int, old_wins, q));
                }
            }
        }
        let top = if k == 1 { 0 } else { wins[1] };
        let ghost before = *self;
        self.losers.set(0, top);
        self.win = Ghost(Seq::new((2 * k) as nat, |n: int| wv(k as int, wins@, n)));
        assert(self.losers@[0] as int == self.win@[1]);
        assert forall|n: int| k <= n < 2 * k implies #[trigger] self.win@[n] == n - k by {}
        assert forall|n: int| 1 <= n < 2 * k implies #[trigger] self.win_ok(n) by {
            assert(self.win@[n] == wv(k as int, wins@, n));
        }
        assert forall|q: int| 1 <= q < k implies #[trigger] self.node_ok(q) by {
            assert(self.win@[q] == wv(k as int, wins@, q));
            assert(self.win@[2 * q] == wv(k as int, wins@, 2 * q));
            assert(self.win@[2 * q + 1] == wv(k as int, wins@, 2 * q + 1));
            assert(before.built_ok(wins@, q));
            assert(self.losers@[q] == before.losers@[q]);
        }
        proof {
            self.lemma_winner_is_least();
        }
    }

    /// Replaces the winning slot and replays the matches on its path to the
    /// root. On equal keys the contestant coming up from below wins.
    pub fn replace_and_replay(&mut self, leaf_idx: usize, new_element: (i64, bool))
        requires
            old(self).valid(),
            leaf_idx == old(self).winner(),
        ensures
            final(self).valid(),
            final(self).wf(),
            final(self).winner_is_least(),
            final(self).slots() == old(self).slots().update(leaf_idx as int, new_element),
            (forall|j: int|
                0 <= j < final(self).slots().len() ==> effective_key(new_element)
                    <= #[trigger] final(self).key_at(j)) ==> final(self).winner() == leaf_idx,
    {
        let k = self.k;
        let ghost l = (k + leaf_idx) as int;
        let ghost w = leaf_idx as int;
        let ghost ow = self.win@;
        let ghost ol = self.losers@;
        let ghost before = *self;
        proof {
            assert(self.win_ok(1));
            assert forall|n: int| 1 <= n < 2 * k && in_subtree(n, l) implies #[trigger] ow[n]
                == w by {
                self.lemma_winner_path(n);
            }
        }
        self.work_area.set(leaf_idx, new_element);
        proof {
            assert forall|q: int| 1 <= q < k && !in_subtree(q, l) implies #[trigger] self.node_ok(q) by {
                assert(before.node_ok(q));
                assert(before.win_ok(2 * q));
                assert(before.win_ok(2 * q + 1));
                assert(before.win_ok(q));
                if ow[2 * q] == w {
                    lemma_subtree_parent(2 * q, l);
                    assert((2 * q) / 2 == q);
                }
                if ow[2 * q + 1] == w {
                    lemma_subtree_parent(2 * q + 1, l);
                    assert((2 * q + 1) / 2 == q);
                }
            }
            assert(self.win@[l] == w);
            assert(in_subtree(l, l));
            assert forall|n: int| 1 <= n < 2 * k implies #[trigger] self.win_ok(n) by {
                assert(before.win_ok(n));
            }
        }
        let ghost wa = self.work_area@;
        let ghost least = forall|j: int|
            0 <= j < k ==> effective_key(new_element) <= #[trigger] effective_key(wa[j]);
        let mut winner_idx = leaf_idx;
        let mut p = (k + leaf_idx) / 2;
        let ghost mut c: int = l;
        while p > 0
            invariant
                self.wf(),
                self.k == k,
                before.valid(),
                before.k == k,
                before.win@ == ow,
                before.losers@ == ol,
                self.work_area@ == old(self).work_area@.update(leaf_idx as int, new_element),
                0 <= w < k,
                l == k + w,
                p == c / 2,
                1 <= c < 2 * k,
                in_subtree(c, l),
                winner_idx as int == self.win@[c],
                self.win@.len() == 2 * k,
                forall|n: int| k <= n < 2 * k ==> #[trigger] self.win@[n] == n - k,
                forall|n: int| 1 <= n < 2 * k ==> #[trigger] self.win_ok(n),
                forall|n: int| 1 <= n < 2 * k && in_subtree(n, l) ==> #[trigger] ow[n] == w,
                forall|n: int|
                    1 <= n < 2 * k && !(in_subtree(n, l) && n >= c) ==> #[trigger] self.win@[n]
                        == ow[n],
                forall|n: int|
                    1 <= n < k && !(in_subtree(n, l) && n >= c) ==> #[trigger] self.losers@[n]
                        == ol[n],
                forall|q: int|
                    1 <= q < k && !(in_subtree(q, l) && q < c) ==> #[trigger] self.node_ok(q),
                least ==> winner_idx == leaf_idx,
                old(self).work_area@.len() == k,
                wa == self.work_area@,
                least == (forall|j: int|
                    0 <= j < k ==> effective_key(new_element) <= #[trigger] effective_key(wa[j])),
            decreases p,
        {
            let ghost pp = p as int;
            let ghost oc = c;
            proof {
                lemma_subtree_parent(c, l);
                assert(before.node_ok(pp));
                let sib = if c == 2 * pp { 2 * pp + 1 } else { 2 * pp };
                assert(before.win_ok(sib));
                lemma_siblings_disjoint(pp, l);
                assert(ow[pp] == w);
                assert(ow[c] == w);
                if in_subtree(sib, l) {
                    assert(false);
                }
                assert(self.win@[sib] == ow[sib]);
                assert(self.losers@[pp] == ow[sib]);
                assert(self.win_ok(sib));
                assert(self.win_ok(c));
                lemma_subtree_parent(sib, self.k + self.win@[sib]);
                lemma_subtree_parent(c, self.k + self.win@[c]);
            }
            let loser_idx = self.losers[p];
            let ghost b2 = *self;
            let kw = self.get_key(winner_idx);
            let kl = self.get_key(loser_idx);
            proof {
                if least {
                    assert(effective_key(wa[loser_idx as int]) >= effective_key(new_element));
                    assert(self.work_area@[leaf_idx as int] == new_element);
                }
            }
            if kw > kl {
                self.losers.set(p, winner_idx);
                winner_idx = loser_idx;
            }
            proof {
                self.win = Ghost(self.win@.update(pp, winner_idx as int));
                c = pp;
                assert forall|q: int|
                    1 <= q < k && !(in_subtree(q, l) && q < c) implies #[trigger] self.node_ok(q) by {
                    if q != pp {
                        if in_subtree(q, l) && q < oc {
                            lemma_subtree_order(q, oc, l);
                            assert(in_subtree(q, oc / 2));
                        }
                        assert(b2.node_ok(q));
                        assert(2 * q != pp && 2 * q + 1 != pp) by {
                            if 2 * q == pp || 2 * q + 1 == pp {
                                assert(pp / 2 == q);
                                lemma_subtree_parent(pp, l);
                            }
                        }
                    }
                }
                assert forall|n: int| 1 <= n < 2 * k implies #[trigger] self.win_ok(n) by {
                    if n != pp {
                        assert(b2.win_ok(n));
                    }
                }
            }
            p = p / 2;
        }
        let ghost b3 = *self;
        proof {
            assert(c == 1);
            assert(b3.win_ok(1));
        }
        self.losers.set(0, winner_idx);
        proof {
            assert forall|n: int| 1 <= n < 2 * k implies #[trigger] self.win_ok(n) by {
                assert(b3.win_ok(n));
            }
            assert forall|q: int| 1 <= q < k implies #[trigger] self.node_ok(q) by {
                assert(b3.node_ok(q));
                assert(!(in_subtree(q, l) && q < c));
            }
            if forall|j: int| 0 <= j < self.slots().len() ==> effective_key(new_element)
                <= #[trigger] self.key_at(j) {
                assert forall|j: int| 0 <= j < k implies effective_key(new_element) <= #[trigger] effective_key(
                    wa[j],
                ) by {
                    assert(self.key_at(j) == effective_key(wa[j]));
                }
                assert(least);
            }
            self.lemma_winner_is_least();
        }
    }
}

} // verus!
