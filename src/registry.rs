use vstd::prelude::*;

verus! {

/// The number of `true` entries of `s`.
pub open spec fn count_true(s: Seq<bool>) -> nat
    decreases s.len(),
{
    if s.len() == 0 {
        0
    } else {
        count_true(s.drop_last()) + if s.last() { 1nat } else { 0nat }
    }
}

/// The number of `true` entries over all rows.
pub open spec fn matrix_count(rows: Seq<Vec<bool>>) -> nat
    decreases rows.len(),
{
    if rows.len() == 0 {
        0
    } else {
        matrix_count(rows.drop_last()) + count_true(rows.last()@)
    }
}

/// Clearing entries never adds to the count; clearing a set one takes from it.
proof fn lemma_count_true_mono(s: Seq<bool>, t: Seq<bool>, i: int)
    requires
        s.len() == t.len(),
        forall|k: int| 0 <= k < s.len() && #[trigger] t[k] ==> s[k],
    ensures
        count_true(t) <= count_true(s),
        0 <= i < s.len() && s[i] && !t[i] ==> count_true(t) < count_true(s),
    decreases s.len(),
{
    if s.len() > 0 {
        let (s0, t0) = (s.drop_last(), t.drop_last());
        lemma_count_true_mono(s0, t0, i);
    }
}

pub proof fn lemma_matrix_count_mono(a: Seq<Vec<bool>>, b: Seq<Vec<bool>>, i: int, j: int)
    requires
        a.len() == b.len(),
        forall|k: int| 0 <= k < a.len() ==> (#[trigger] a[k])@.len() == b[k]@.len(),
        forall|k: int, l: int| 0 <= k < a.len() && 0 <= l < a[k]@.len() && #[trigger] b[k]@[l] ==> a[k]@[l],
    ensures
        matrix_count(b) <= matrix_count(a),
        0 <= i < a.len() && 0 <= j < a[i]@.len() && a[i]@[j] && !b[i]@[j] ==> matrix_count(b) < matrix_count(a),
    decreases a.len(),
{
    if a.len() > 0 {
        let last = a.len() - 1;
        lemma_matrix_count_mono(a.drop_last(), b.drop_last(), i, j);
        lemma_count_true_mono(a[last]@, b[last]@, if i == last { j } else { -1 });
    }
}

/// `{p, q}` is the unordered pair `{a, b}`.
pub open spec fn pair_is(p: int, q: int, a: int, b: int) -> bool {
    (p == a && q == b) || (p == b && q == a)
}

/// The candidate sets of the game generator, held as membership rows indexed
/// by player id. Men have the ids `0..num_men`, women the ids
/// `num_men..num_players`.
///
/// `teammates[p][q]`: `q` may still partner `p`.
/// `opponents[p][q]`: `q` may still face `p`.
/// A player that is no longer active appears in no candidate set.
pub struct Registry {
    pub num_men: usize,
    pub num_players: usize,
    pub active: Vec<bool>,
    pub teammates: Vec<Vec<bool>>,
    pub opponents: Vec<Vec<bool>>,
}

impl Registry {
    pub open spec fn is_man(&self, p: int) -> bool {
        0 <= p < self.num_men
    }

    pub open spec fn is_woman(&self, p: int) -> bool {
        self.num_men <= p < self.num_players
    }

    pub open spec fn is_player(&self, p: int) -> bool {
        0 <= p < self.num_players
    }

    pub open spec fn same_pool(&self, p: int, q: int) -> bool {
        self.is_man(p) == self.is_man(q)
    }

    pub open spec fn act(&self, p: int) -> bool {
        self.active@[p]
    }

    pub open spec fn team(&self, p: int, q: int) -> bool {
        self.teammates@[p]@[q]
    }

    pub open spec fn opp(&self, p: int, q: int) -> bool {
        self.opponents@[p]@[q]
    }

    /// Dimensions agree, and candidate relations are symmetric, link only
    /// active players, pair a man with a woman, and never face a player with
    /// themself.
    pub open spec fn wf(&self) -> bool {
        &&& self.num_men <= self.num_players <= u32::MAX
        &&& self.active@.len() == self.num_players
        &&& self.teammates@.len() == self.num_players
        &&& self.opponents@.len() == self.num_players
        &&& forall|p: int|
            0 <= p < self.num_players ==> (#[trigger] self.teammates@[p])@.len() == self.num_players
        &&& forall|p: int|
            0 <= p < self.num_players ==> (#[trigger] self.opponents@[p])@.len() == self.num_players
        &&& forall|p: int, q: int|
            self.is_player(p) && self.is_player(q) && #[trigger] self.team(p, q) ==> self.act(p)
                && self.act(q) && !self.same_pool(p, q) && self.team(q, p)
        &&& forall|p: int, q: int|
            self.is_player(p) && self.is_player(q) && #[trigger] self.opp(p, q) ==> self.act(p)
                && self.act(q) && p != q && self.opp(q, p)
    }

    pub open spec fn has_teammate(&self, p: int) -> bool {
        exists|q: int| self.is_player(q) && #[trigger] self.team(p, q)
    }

    pub open spec fn has_same_pool_opponent(&self, p: int) -> bool {
        exists|q: int| self.is_player(q) && self.same_pool(p, q) && #[trigger] self.opp(p, q)
    }

    pub open spec fn has_cross_pool_opponent(&self, p: int) -> bool {
        exists|q: int| self.is_player(q) && !self.same_pool(p, q) && #[trigger] self.opp(p, q)
    }

    /// An active player that can no longer take part in a new game.
    pub open spec fn stuck(&self, p: int) -> bool {
        self.act(p) && !(self.has_teammate(p) && self.has_same_pool_opponent(p)
            && self.has_cross_pool_opponent(p))
    }

    /// `p` is an active player that, once only the players of `t` remain,
    /// still has a candidate teammate and a candidate opponent in each pool.
    pub open spec fn supported(&self, t: Set<int>, p: int) -> bool {
        &&& self.is_player(p) && self.act(p)
        &&& exists|q: int| self.is_player(q) && t.contains(q) && #[trigger] self.team(p, q)
        &&& exists|q: int| self.is_player(q) && t.contains(q) && self.same_pool(p, q) && #[trigger] self.opp(p, q)
        &&& exists|q: int| self.is_player(q) && t.contains(q) && !self.same_pool(p, q) && #[trigger] self.opp(p, q)
    }

    /// Every player of `t` is supported by `t`: the players of `t` could go on
    /// playing among themselves.
    pub open spec fn sustains(&self, t: Set<int>) -> bool {
        forall|p: int| t.contains(p) ==> #[trigger] self.supported(t, p)
    }

    /// The game `(m, w)` against `(om, ow)` may be committed.
    pub open spec fn can_play(&self, m: int, w: int, om: int, ow: int) -> bool {
        &&& self.is_man(m) && self.is_man(om) && self.is_woman(w) && self.is_woman(ow)
        &&& m != om && w != ow
        &&& self.team(m, w) && self.team(om, ow)
        &&& self.opp(m, om) && self.opp(w, om) && self.opp(m, ow) && self.opp(w, ow)
    }

    /// The number of candidate teammate entries left: it falls with every
    /// committed game.
    pub open spec fn team_total(&self) -> nat {
        matrix_count(self.teammates@)
    }

    /// A fresh registry: every player active, every man a candidate partner of
    /// every woman, every player a candidate opponent of every other player.
    pub fn new(num_men: u32, num_women: u32) -> (r: Registry)
        requires
            num_men + num_women <= u32::MAX,
        ensures
            r.wf(),
            r.num_men == num_men,
            r.num_players == num_men + num_women,
            forall|p: int| r.is_player(p) ==> #[trigger] r.act(p),
            forall|p: int, q: int|
                r.is_player(p) && r.is_player(q) ==> (#[trigger] r.team(p, q) <==> !r.same_pool(p, q)),
            forall|p: int, q: int|
                r.is_player(p) && r.is_player(q) ==> (#[trigger] r.opp(p, q) <==> p != q),
    {
        let men = num_men as usize;
        let n = (num_men + num_women) as usize;
        let mut active: Vec<bool> = Vec::new();
        let mut teammates: Vec<Vec<bool>> = Vec::new();
        let mut opponents: Vec<Vec<bool>> = Vec::new();
        for p in 0..n
            invariant
                men <= n,
                active@.len() == p,
                teammates@.len() == p,
                opponents@.len() == p,
                forall|i: int| 0 <= i < p ==> active@[i],
                forall|i: int| 0 <= i < p ==> (#[trigger] teammates@[i])@.len() == n,
                forall|i: int| 0 <= i < p ==> (#[trigger] opponents@[i])@.len() == n,
                forall|i: int, j: int|
                    0 <= i < p && 0 <= j < n ==> (teammates@[i]@[j] <==> ((i < men) != (j < men))),
                forall|i: int, j: int|
                    0 <= i < p && 0 <= j < n ==> (opponents@[i]@[j] <==> i != j),
        {
            let mut trow: Vec<bool> = Vec::new();
            let mut orow: Vec<bool> = Vec::new();
            for q in 0..n
                invariant
                    trow@.len() == q,
                    orow@.len() == q,
                    forall|j: int| 0 <= j < q ==> (trow@[j] <==> ((p < men) != (j < men))),
                    forall|j: int| 0 <= j < q ==> (orow@[j] <==> p != j),
            {
                trow.push((p < men) != (q < men));
                orow.push(p != q);
            }
            active.push(true);
            teammates.push(trow);
            opponents.push(orow);
        }
        Registry { num_men: men, num_players: n, active, teammates, opponents }
    }
    /// Removes `b` from the candidate teammates of `a` and `a` from those of `b`.
    fn clear_team(&mut self, a: usize, b: usize)
        requires
            old(self).wf(),
            a < old(self).num_players,
            b < old(self).num_players,
        ensures
            final(self).wf(),
            final(self).num_men == old(self).num_men,
            final(self).num_players == old(self).num_players,
            final(self).active@ == old(self).active@,
            final(self).opponents@ == old(self).opponents@,
            forall|p: int, q: int|
                final(self).is_player(p) && final(self).is_player(q) ==> (#[trigger] final(self).team(p, q)
                    == (old(self).team(p, q) && !pair_is(p, q, a as int, b as int))),
    {
        self.teammates[a][b] = false;
        self.teammates[b][a] = false;
        proof {
            let n = self.num_players as int;
            assert forall|p: int| 0 <= p < n implies (#[trigger] self.teammates@[p])@.len() == n by {
                assert(old(self).teammates@[p]@.len() == n);
            }
            assert forall|p: int, q: int|
                self.is_player(p) && self.is_player(q) implies #[trigger] self.team(p, q) == (old(
                self,
            ).team(p, q) && !pair_is(p, q, a as int, b as int)) by {
                assert(old(self).teammates@[p]@.len() == n);
            }
            assert forall|p: int, q: int|
                self.is_player(p) && self.is_player(q) && #[trigger] self.team(p, q) implies self.act(p)
                && self.act(q) && !self.same_pool(p, q) && self.team(q, p) by {
                assert(old(self).team(p, q));
                assert(old(self).team(q, p));
            }
            assert forall|p: int, q: int|
                self.is_player(p) && self.is_player(q) && #[trigger] self.opp(p, q) implies self.act(p)
                && self.act(q) && p != q && self.opp(q, p) by {
                assert(old(self).opp(p, q));
            }
        }
    }

    /// Removes `b` from the candidate opponents of `a` and `a` from those of `b`.
    fn clear_opp(&mut self, a: usize, b: usize)
        requires
            old(self).wf(),
            a < old(self).num_players,
            b < old(self).num_players,
        ensures
            final(self).wf(),
            final(self).num_men == old(self).num_men,
            final(self).num_players == old(self).num_players,
            final(self).active@ == old(self).active@,
            final(self).teammates@ == old(self).teammates@,
            forall|p: int, q: int|
                final(self).is_player(p) && final(self).is_player(q) ==> (#[trigger] final(self).opp(p, q)
                    == (old(self).opp(p, q) && !pair_is(p, q, a as int, b as int))),
    {
        self.opponents[a][b] = false;
        self.opponents[b][a] = false;
        proof {
            let n = self.num_players as int;
            assert forall|p: int| 0 <= p < n implies (#[trigger] self.opponents@[p])@.len() == n by {
                assert(old(self).opponents@[p]@.len() == n);
            }
            assert forall|p: int, q: int|
                self.is_player(p) && self.is_player(q) implies #[trigger] self.opp(p, q) == (old(
                self,
            ).opp(p, q) && !pair_is(p, q, a as int, b as int)) by {
                assert(old(self).opponents@[p]@.len() == n);
            }
            assert forall|p: int, q: int|
                self.is_player(p) && self.is_player(q) && #[trigger] self.opp(p, q) implies self.act(p)
                && self.act(q) && p != q && self.opp(q, p) by {
                assert(old(self).opp(p, q));
                assert(old(self).opp(q, p));
            }
            assert forall|p: int, q: int|
                self.is_player(p) && self.is_player(q) && #[trigger] self.team(p, q) implies self.act(p)
                && self.act(q) && !self.same_pool(p, q) && self.team(q, p) by {
                assert(old(self).team(p, q));
            }
        }
    }
    /// Whether `p` still has a candidate teammate, a candidate opponent in its
    /// own pool, and one in the other pool.
    fn status(&self, p: usize) -> (r: (bool, bool, bool))
        requires
            self.wf(),
            p < self.num_players,
        ensures
            r.0 == self.has_teammate(p as int),
            r.1 == self.has_same_pool_opponent(p as int),
            r.2 == self.has_cross_pool_opponent(p as int),
    {
        let n = self.num_players;
        let is_man = p < self.num_men;
        let mut t = false;
        let mut same = false;
        let mut cross = false;
        for q in 0..n
            invariant
                self.wf(),
                n == self.num_players,
                p < n,
                is_man == self.is_man(p as int),
                t == exists|k: int| 0 <= k < q && #[trigger] self.team(p as int, k),
                same == exists|k: int| 0 <= k < q && self.same_pool(p as int, k) && #[trigger] self.opp(p as int, k),
                cross == exists|k: int| 0 <= k < q && !self.same_pool(p as int, k) && #[trigger] self.opp(p as int, k),
        {
            if self.teammates[p][q] {
                t = true;
            }
            if self.opponents[p][q] {
                if (q < self.num_men) == is_man {
                    same = true;
                } else {
                    cross = true;
                }
            }
            proof {
                assert(self.team(p as int, q as int) == self.teammates@[p as int]@[q as int]);
                assert(self.opp(p as int, q as int) == self.opponents@[p as int]@[q as int]);
                assert(((q < self.num_men) == is_man) == self.same_pool(p as int, q as int));
            }
        }
        (t, same, cross)
    }

    /// Finds an active player that can no longer take part in a game.
    fn find_stuck(&self) -> (r: Option<usize>)
        requires
            self.wf(),
        ensures
            r matches Some(p) ==> p < self.num_players && self.stuck(p as int),
            r is None ==> forall|p: int| self.is_player(p) ==> !#[trigger] self.stuck(p),
    {
        for p in 0..self.num_players
            invariant
                self.wf(),
                forall|k: int| 0 <= k < p ==> !#[trigger] self.stuck(k),
        {
            if self.active[p] {
                let (t, same, cross) = self.status(p);
                if !(t && same && cross) {
                    return Some(p);
                }
            }
        }
        None
    }

    /// Deactivates `p` and removes it from every candidate set.
    fn drop_player(&mut self, p: usize)
        requires
            old(self).wf(),
            p < old(self).num_players,
            old(self).act(p as int),
        ensures
            final(self).wf(),
            final(self).num_men == old(self).num_men,
            final(self).num_players == old(self).num_players,
            final(self).active@ == old(self).active@.update(p as int, false),
            forall|a: int, b: int|
                final(self).is_player(a) && final(self).is_player(b) ==> #[trigger] final(self).team(a, b)
                    == (old(self).team(a, b) && a != p && b != p),
            forall|a: int, b: int|
                final(self).is_player(a) && final(self).is_player(b) ==> #[trigger] final(self).opp(a, b)
                    == (old(self).opp(a, b) && a != p && b != p),
    {
        let ghost start = *self;
        let n = self.num_players;
        self.active.set(p, false);
        for q in 0..n
            invariant
                start.wf(),
                n == start.num_players,
                p < n,
                self.num_men == start.num_men,
                self.num_players == n,
                self.active@ == start.active@.update(p as int, false),
                self.teammates@.len() == n,
                self.opponents@.len() == n,
                forall|k: int| 0 <= k < n ==> (#[trigger] self.teammates@[k])@.len() == n,
                forall|k: int| 0 <= k < n ==> (#[trigger] self.opponents@[k])@.len() == n,
                forall|a: int, b: int|
                    0 <= a < n && 0 <= b < n ==> #[trigger] self.team(a, b) == (start.team(a, b)
                        && !(a == p && b < q) && !(b == p && a < q)),
                forall|a: int, b: int|
                    0 <= a < n && 0 <= b < n ==> #[trigger] self.opp(a, b) == (start.opp(a, b)
                        && !(a == p && b < q) && !(b == p && a < q)),
        {
            let ghost before = *self;
            self.teammates[p][q] = false;
            self.teammates[q][p] = false;
            self.opponents[p][q] = false;
            self.opponents[q][p] = false;
            proof {
                assert forall|k: int| 0 <= k < n implies (#[trigger] self.teammates@[k])@.len() == n by {
                    assert(before.teammates@[k]@.len() == n);
                }
                assert forall|k: int| 0 <= k < n implies (#[trigger] self.opponents@[k])@.len() == n by {
                    assert(before.opponents@[k]@.len() == n);
                }
                assert forall|a: int, b: int| 0 <= a < n && 0 <= b < n implies #[trigger] self.team(a, b)
                    == (start.team(a, b) && !(a == p && b < q + 1) && !(b == p && a < q + 1)) by {
                    assert(before.team(a, b) == (start.team(a, b) && !(a == p && b < q) && !(b == p && a < q)));
                    assert(before.teammates@[a]@.len() == n);
                }
                assert forall|a: int, b: int| 0 <= a < n && 0 <= b < n implies #[trigger] self.opp(a, b)
                    == (start.opp(a, b) && !(a == p && b < q + 1) && !(b == p && a < q + 1)) by {
                    assert(before.opp(a, b) == (start.opp(a, b) && !(a == p && b < q) && !(b == p && a < q)));
                    assert(before.opponents@[a]@.len() == n);
                }
            }
        }
        proof {
            assert forall|a: int, b: int|
                self.is_player(a) && self.is_player(b) && #[trigger] self.team(a, b) implies self.act(a)
                && self.act(b) && !self.same_pool(a, b) && self.team(b, a) by {
                assert(start.team(a, b));
                assert(start.team(b, a));
            }
            assert forall|a: int, b: int|
                self.is_player(a) && self.is_player(b) && #[trigger] self.opp(a, b) implies self.act(a)
                && self.act(b) && a != b && self.opp(b, a) by {
                assert(start.opp(a, b));
                assert(start.opp(b, a));
            }
        }
    }
}

/// The players in both candidate sets `a` and `b`.
pub fn get_shared(a: &Vec<bool>, b: &Vec<bool>) -> (r: Vec<bool>)
    requires
        a@.len() == b@.len(),
    ensures
        r@.len() == a@.len(),
        forall|i: int| 0 <= i < a@.len() ==> #[trigger] r@[i] == (a@[i] && b@[i]),
{
    let mut r: Vec<bool> = Vec::new();
    for i in 0..a.len()
        invariant
            a@.len() == b@.len(),
            r@.len() == i,
            forall|k: int| 0 <= k < i ==> #[trigger] r@[k] == (a@[k] && b@[k]),
    {
        r.push(a[i] && b[i]);
    }
    r
}

/// Commits the game `(m, w)` against `(opp_m, opp_w)`: the two teams may not
/// partner again, and no player of one side may face a player of the other
/// side again.
pub fn remove_players(m: u32, w: u32, opp_m: u32, opp_w: u32, reg: &mut Registry)
    requires
        old(reg).wf(),
        old(reg).can_play(m as int, w as int, opp_m as int, opp_w as int),
    ensures
        final(reg).wf(),
        final(reg).num_men == old(reg).num_men,
        final(reg).num_players == old(reg).num_players,
        final(reg).active@ == old(reg).active@,
        forall|p: int, q: int|
            final(reg).is_player(p) && final(reg).is_player(q) ==> (#[trigger] final(reg).team(p, q) == (
            old(reg).team(p, q) && !pair_is(p, q, m as int, w as int) && !pair_is(
                p,
                q,
                opp_m as int,
                opp_w as int,
            ))),
        forall|p: int, q: int|
            final(reg).is_player(p) && final(reg).is_player(q) ==> (#[trigger] final(reg).opp(p, q) == (
            old(reg).opp(p, q) && !pair_is(p, q, m as int, opp_m as int) && !pair_is(
                p,
                q,
                m as int,
                opp_w as int,
            ) && !pair_is(p, q, w as int, opp_m as int) && !pair_is(p, q, w as int, opp_w as int))),
        final(reg).team_total() < old(reg).team_total(),
{
    let ghost s0 = *reg;
    reg.clear_team(m as usize, w as usize);
    let ghost s1 = *reg;
    reg.clear_team(opp_m as usize, opp_w as usize);
    let ghost s2 = *reg;
    reg.clear_opp(m as usize, opp_m as usize);
    let ghost s3 = *reg;
    reg.clear_opp(m as usize, opp_w as usize);
    let ghost s4 = *reg;
    reg.clear_opp(w as usize, opp_m as usize);
    let ghost s5 = *reg;
    reg.clear_opp(w as usize, opp_w as usize);
    proof {
        let n = reg.num_players as int;
        assert forall|p: int, q: int| reg.is_player(p) && reg.is_player(q) implies #[trigger] reg.team(p, q) == (
        s0.team(p, q) && !pair_is(p, q, m as int, w as int) && !pair_is(p, q, opp_m as int, opp_w as int)) by {
            assert(s1.team(p, q) == (s0.team(p, q) && !pair_is(p, q, m as int, w as int)));
            assert(s2.team(p, q) == (s1.team(p, q) && !pair_is(p, q, opp_m as int, opp_w as int)));
        }
        assert forall|p: int, q: int| reg.is_player(p) && reg.is_player(q) implies #[trigger] reg.opp(p, q) == (
        s0.opp(p, q) && !pair_is(p, q, m as int, opp_m as int) && !pair_is(p, q, m as int, opp_w as int)
            && !pair_is(p, q, w as int, opp_m as int) && !pair_is(p, q, w as int, opp_w as int)) by {
            assert(s3.opp(p, q) == (s2.opp(p, q) && !pair_is(p, q, m as int, opp_m as int)));
            assert(s4.opp(p, q) == (s3.opp(p, q) && !pair_is(p, q, m as int, opp_w as int)));
            assert(s5.opp(p, q) == (s4.opp(p, q) && !pair_is(p, q, w as int, opp_m as int)));
            assert(reg.opp(p, q) == (s5.opp(p, q) && !pair_is(p, q, w as int, opp_w as int)));
        }
        assert forall|k: int| 0 <= k < n implies (#[trigger] s0.teammates@[k])@.len()
            == reg.teammates@[k]@.len() by {}
        assert forall|k: int, l: int|
            0 <= k < n && 0 <= l < s0.teammates@[k]@.len() && #[trigger] reg.teammates@[k]@[l] implies s0.teammates@[k]@[l] by {
            assert(reg.team(k, l));
        }
        assert(!reg.team(m as int, w as int));
        lemma_matrix_count_mono(s0.teammates@, reg.teammates@, m as int, w as int);
    }
}


/// A player that is stuck once only part of the players remain belongs to no
/// set of players that sustains itself among those.
proof fn lemma_stuck_outside(start: &Registry, cur: &Registry, p: int, t: Set<int>)
    requires
        cur.num_men == start.num_men,
        cur.num_players == start.num_players,
        cur.is_player(p),
        cur.stuck(p),
        start.sustains(t),
        forall|a: int| #[trigger] t.contains(a) ==> cur.act(a),
        forall|a: int, b: int|
            cur.is_player(a) && cur.is_player(b) ==> #[trigger] cur.team(a, b) == (start.team(a, b)
                && cur.act(a) && cur.act(b)),
        forall|a: int, b: int|
            cur.is_player(a) && cur.is_player(b) ==> #[trigger] cur.opp(a, b) == (start.opp(a, b)
                && cur.act(a) && cur.act(b)),
    ensures
        !t.contains(p),
{
    if t.contains(p) {
        assert(start.supported(t, p));
        let q1 = choose|q: int| start.is_player(q) && t.contains(q) && #[trigger] start.team(p, q);
        assert(cur.team(p, q1));
        let q2 = choose|q: int|
            start.is_player(q) && t.contains(q) && start.same_pool(p, q) && #[trigger] start.opp(p, q);
        assert(cur.opp(p, q2));
        let q3 = choose|q: int|
            start.is_player(q) && t.contains(q) && !start.same_pool(p, q) && #[trigger] start.opp(p, q);
        assert(cur.opp(p, q3));
    }
}

/// Cascading cleanup: removes every player that can no longer take part in a
/// game, and every reference to it, until each remaining active player has a
/// candidate teammate and a candidate opponent in each pool.
pub fn remove_empty(reg: &mut Registry)
    requires
        old(reg).wf(),
    ensures
        final(reg).wf(),
        final(reg).num_men == old(reg).num_men,
        final(reg).num_players == old(reg).num_players,
        forall|p: int| final(reg).is_player(p) && #[trigger] final(reg).act(p) ==> old(reg).act(p),
        forall|p: int| final(reg).is_player(p) ==> !#[trigger] final(reg).stuck(p),
        forall|t: Set<int>, p: int| #[trigger] old(reg).sustains(t) && #[trigger] t.contains(p) ==> final(reg).act(p),
        forall|p: int, q: int|
            final(reg).is_player(p) && final(reg).is_player(q) ==> #[trigger] final(reg).team(p, q)
                == (old(reg).team(p, q) && final(reg).act(p) && final(reg).act(q)),
        forall|p: int, q: int|
            final(reg).is_player(p) && final(reg).is_player(q) ==> #[trigger] final(reg).opp(p, q)
                == (old(reg).opp(p, q) && final(reg).act(p) && final(reg).act(q)),
{
    let ghost start = *reg;
    proof {
        assert forall|t: Set<int>, p: int| #[trigger] start.sustains(t) && #[trigger] t.contains(p) implies reg.act(p) by {
            assert(start.supported(t, p));
        }
    }
    loop
        invariant
            reg.wf(),
            start.wf(),
            reg.num_men == start.num_men,
            reg.num_players == start.num_players,
            forall|p: int| reg.is_player(p) && #[trigger] reg.act(p) ==> start.act(p),
            forall|t: Set<int>, p: int| #[trigger] start.sustains(t) && #[trigger] t.contains(p) ==> reg.act(p),
            forall|p: int, q: int|
                reg.is_player(p) && reg.is_player(q) ==> #[trigger] reg.team(p, q) == (start.team(p, q)
                    && reg.act(p) && reg.act(q)),
            forall|p: int, q: int|
                reg.is_player(p) && reg.is_player(q) ==> #[trigger] reg.opp(p, q) == (start.opp(p, q)
                    && reg.act(p) && reg.act(q)),
        ensures
            reg.wf(),
            reg.num_men == start.num_men,
            reg.num_players == start.num_players,
            forall|p: int| reg.is_player(p) && #[trigger] reg.act(p) ==> start.act(p),
            forall|p: int| reg.is_player(p) ==> !#[trigger] reg.stuck(p),
            forall|t: Set<int>, p: int| #[trigger] start.sustains(t) && #[trigger] t.contains(p) ==> reg.act(p),
            forall|p: int, q: int|
                reg.is_player(p) && reg.is_player(q) ==> #[trigger] reg.team(p, q) == (start.team(p, q)
                    && reg.act(p) && reg.act(q)),
            forall|p: int, q: int|
                reg.is_player(p) && reg.is_player(q) ==> #[trigger] reg.opp(p, q) == (start.opp(p, q)
                    && reg.act(p) && reg.act(q)),
        decreases count_true(reg.active@),
    {
        match reg.find_stuck() {
            None => {
                break;
            },
            Some(p) => {
                let ghost before = *reg;
                proof {
                    assert forall|t: Set<int>| #[trigger] start.sustains(t) implies !t.contains(p as int) by {
                        lemma_stuck_outside(&start, &before, p as int, t);
                    }
                }
                reg.drop_player(p);
                proof {
                    assert forall|a: int, b: int| reg.is_player(a) && reg.is_player(b) implies #[trigger] reg.team(a, b)
                        == (start.team(a, b) && reg.act(a) && reg.act(b)) by {
                        assert(before.team(a, b) == (start.team(a, b) && before.act(a) && before.act(b)));
                    }
                    assert forall|a: int, b: int| reg.is_player(a) && reg.is_player(b) implies #[trigger] reg.opp(a, b)
                        == (start.opp(a, b) && reg.act(a) && reg.act(b)) by {
                        assert(before.opp(a, b) == (start.opp(a, b) && before.act(a) && before.act(b)));
                    }
                    assert forall|a: int| reg.is_player(a) && #[trigger] reg.act(a) implies start.act(a) by {
                        assert(before.act(a));
                    }
                    assert forall|t: Set<int>, a: int| #[trigger] start.sustains(t) && #[trigger] t.contains(a) implies reg.act(a) by {
                        assert(start.supported(t, a));
                        assert(before.act(a));
                        assert(!t.contains(p as int));
                    }
                    lemma_count_true_mono(before.active@, reg.active@, p as int);
                }
            },
        }
    }
}

} // verus!
