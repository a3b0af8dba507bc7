use rand::rngs::StdRng;
use rand::seq::SliceRandom;
use rand::SeedableRng;
use vstd::prelude::*;
use crate::game::{Game, ScheduleError, Team, valid_schedule};
use crate::registry::{Registry, get_shared, remove_players, remove_empty, lemma_matrix_count_mono};

verus! {

broadcast use vstd::seq_lib::group_to_multiset_ensures;

impl Registry {
    /// Man `m` can still play some game.
    pub open spec fn playable(&self, m: int) -> bool {
        exists|w: int, om: int, ow: int| #[trigger] self.can_play(m, w, om, ow)
    }

    /// `(m, w)` against `(om, ow)` is the first game of `m` in the order of
    /// the search: smallest partner, then smallest opposing man, then smallest
    /// opposing woman.
    pub open spec fn first_game(&self, m: int, w: int, om: int, ow: int) -> bool {
        &&& self.can_play(m, w, om, ow)
        &&& forall|w2: int, om2: int, ow2: int| w2 < w ==> !#[trigger] self.can_play(m, w2, om2, ow2)
        &&& forall|om2: int, ow2: int| om2 < om ==> !#[trigger] self.can_play(m, w, om2, ow2)
        &&& forall|ow2: int| ow2 < ow ==> !#[trigger] self.can_play(m, w, om, ow2)
    }

    /// No candidate relation of the registry repeats a team or an opposing
    /// pair of the game `g`.
    pub open spec fn spent(&self, g: Game) -> bool {
        &&& forall|a: u32, b: u32|
            #[trigger] g.teams_up(a, b) && self.is_player(a as int) && self.is_player(b as int)
                ==> !self.team(a as int, b as int)
        &&& forall|a: u32, b: u32|
            #[trigger] g.opposes(a, b) && self.is_player(a as int) && self.is_player(b as int)
                ==> !self.opp(a as int, b as int)
    }

    /// The opponents of the team `(m, w)` in its first game.
    fn find_opponents(&self, m: usize, w: usize) -> (r: Option<(usize, usize)>)
        requires
            self.wf(),
            self.is_man(m as int),
            self.is_woman(w as int),
            self.team(m as int, w as int),
        ensures
            r matches Some((om, ow)) ==> self.can_play(m as int, w as int, om as int, ow as int)
                && (forall|om2: int, ow2: int| om2 < om ==> !#[trigger] self.can_play(m as int, w as int, om2, ow2))
                && (forall|ow2: int| ow2 < ow ==> !#[trigger] self.can_play(m as int, w as int, om as int, ow2)),
            r is None ==> forall|om: int, ow: int| !#[trigger] self.can_play(m as int, w as int, om, ow),
    {
        let shared = get_shared(&self.opponents[m], &self.opponents[w]);
        let men = self.num_men;
        let n = self.num_players;
        for om in 0..men
            invariant
                self.wf(),
                men == self.num_men,
                n == self.num_players,
                self.is_man(m as int),
                self.is_woman(w as int),
                self.team(m as int, w as int),
                shared@.len() == n,
                forall|k: int| 0 <= k < n ==> #[trigger] shared@[k] == (self.opp(m as int, k) && self.opp(w as int, k)),
                forall|om2: int, ow2: int| om2 < om ==> !#[trigger] self.can_play(m as int, w as int, om2, ow2),
        {
            if om != m && shared[om] {
                for ow in men..n
                    invariant
                        self.wf(),
                        men == self.num_men,
                        n == self.num_players,
                        om < men,
                        om != m,
                        shared@[om as int],
                        self.is_man(m as int),
                        self.is_woman(w as int),
                        self.team(m as int, w as int),
                        shared@.len() == n,
                        forall|k: int| 0 <= k < n ==> #[trigger] shared@[k] == (self.opp(m as int, k) && self.opp(w as int, k)),
                        forall|om2: int, ow2: int| om2 < om ==> !#[trigger] self.can_play(m as int, w as int, om2, ow2),
                        forall|ow2: int| ow2 < ow ==> !#[trigger] self.can_play(m as int, w as int, om as int, ow2),
                {
                    if ow != w && shared[ow] && self.teammates[om][ow] {
                        proof {
                            assert(self.team(om as int, ow as int));
                            assert(shared@[ow as int]);
                        }
                        return Some((om, ow));
                    }
                }
            }
        }
        None
    }

    /// The partner and opponents of man `m` in his first game.
    fn find_for_man(&self, m: usize) -> (r: Option<(usize, usize, usize)>)
        requires
            self.wf(),
            self.is_man(m as int),
        ensures
            r matches Some((w, om, ow)) ==> self.first_game(m as int, w as int, om as int, ow as int),
            r is None ==> !self.playable(m as int),
    {
        let n = self.num_players;
        for w in self.num_men..n
            invariant
                self.wf(),
                n == self.num_players,
                self.is_man(m as int),
                forall|w2: int, om2: int, ow2: int| w2 < w ==> !#[trigger] self.can_play(m as int, w2, om2, ow2),
        {
            if self.teammates[m][w] {
                match self.find_opponents(m, w) {
                    Some((om, ow)) => {
                        return Some((w, om, ow));
                    },
                    None => {},
                }
            }
        }
        None
    }

    /// One pass of the search: the first game of the first man in `order`
    /// that can still play one.
    pub fn find_game(&self, order: &Vec<u32>) -> (r: Option<Game>)
        requires
            self.wf(),
        ensures
            r matches Some(g) ==> exists|k: int|
                0 <= k < order@.len() && order@[k] == g.team1.man && self.first_game(
                    g.team1.man as int,
                    g.team1.woman as int,
                    g.team2.man as int,
                    g.team2.woman as int,
                ) && forall|k2: int| 0 <= k2 < k ==> !#[trigger] self.playable(order@[k2] as int),
            r is None ==> forall|k: int| 0 <= k < order@.len() ==> !#[trigger] self.playable(order@[k] as int),
    {
        for k in 0..order.len()
            invariant
                self.wf(),
                forall|k2: int| 0 <= k2 < k ==> !#[trigger] self.playable(order@[k2] as int),
        {
            let m = order[k];
            if (m as usize) < self.num_men {
                match self.find_for_man(m as usize) {
                    Some((w, om, ow)) => {
                        let g = Game {
                            team1: Team { man: m, woman: w as u32 },
                            team2: Team { man: om as u32, woman: ow as u32 },
                        };
                        return Some(g);
                    },
                    None => {},
                }
            } else {
                proof {
                    assert forall|w: int, om: int, ow: int| !self.can_play(m as int, w, om, ow) by {}
                }
            }
        }
        None
    }

    /// The active men, each once, by increasing id.
    pub fn active_men(&self) -> (r: Vec<u32>)
        requires
            self.wf(),
        ensures
            forall|k: int| 0 <= k < r@.len() ==> self.is_man(r@[k] as int) && self.act(#[trigger] r@[k] as int),
            forall|p: int| self.is_man(p) && self.act(p) ==> #[trigger] r@.contains(p as u32),
            forall|i: int, j: int| 0 <= i < j < r@.len() ==> #[trigger] r@[i] < #[trigger] r@[j],
    {
        let mut r: Vec<u32> = Vec::new();
        for p in 0..self.num_men
            invariant
                self.wf(),
                forall|k: int| 0 <= k < r@.len() ==> self.is_man(r@[k] as int) && self.act(#[trigger] r@[k] as int),
                forall|q: int| 0 <= q < p && self.act(q) ==> #[trigger] r@.contains(q as u32),
                forall|k: int| 0 <= k < r@.len() ==> #[trigger] r@[k] < p,
                forall|i: int, j: int| 0 <= i < j < r@.len() ==> #[trigger] r@[i] < #[trigger] r@[j],
        {
            if self.active[p] {
                let ghost before = r@;
                r.push(p as u32);
                proof {
                    assert(r@[r@.len() - 1] == p as u32);
                    assert forall|q: int| 0 <= q < p + 1 && self.act(q) implies #[trigger] r@.contains(q as u32) by {
                        if q < p {
                            assert(before.contains(q as u32));
                            let i = choose|i: int| 0 <= i < before.len() && before[i] == q as u32;
                            assert(r@[i] == before[i]);
                        }
                    }
                }
            }
        }
        r
    }
}


/// A game that the registry allows extends a valid schedule whose games the
/// registry has all spent to a valid schedule.
proof fn lemma_extend_schedule(reg: &Registry, games: Seq<Game>, g: Game, num_men: nat, num_women: nat)
    requires
        reg.wf(),
        reg.num_men == num_men,
        reg.num_players == num_men + num_women,
        valid_schedule(games, num_men, num_women),
        forall|i: int| 0 <= i < games.len() ==> reg.spent(#[trigger] games[i]),
        reg.can_play(g.team1.man as int, g.team1.woman as int, g.team2.man as int, g.team2.woman as int),
    ensures
        valid_schedule(games.push(g), num_men, num_women),
{
    let s = games.push(g);
    let last = games.len() as int;
    assert(s[last] == g);
    assert forall|a: u32, b: u32| #[trigger] g.teams_up(a, b) implies reg.is_player(a as int)
        && reg.is_player(b as int) && reg.team(a as int, b as int) by {}
    assert forall|a: u32, b: u32| #[trigger] g.opposes(a, b) implies reg.is_player(a as int)
        && reg.is_player(b as int) && reg.opp(a as int, b as int) by {
        assert(reg.opp(g.team1.man as int, g.team2.man as int));
        assert(reg.opp(g.team1.woman as int, g.team2.man as int));
        assert(reg.opp(g.team1.man as int, g.team2.woman as int));
        assert(reg.opp(g.team1.woman as int, g.team2.woman as int));
    }
    assert forall|i: int, j: int, a: u32, b: u32|
        0 <= i < j < s.len() && #[trigger] s[i].teams_up(a, b) implies !#[trigger] s[j].teams_up(a, b) by {
        assert(s[i] == games[i]);
        if j == last {
            assert(reg.spent(games[i]));
        } else {
            assert(s[j] == games[j]);
        }
    }
    assert forall|i: int, j: int, a: u32, b: u32|
        0 <= i < j < s.len() && #[trigger] s[i].opposes(a, b) implies !#[trigger] s[j].opposes(a, b) by {
        assert(s[i] == games[i]);
        if j == last {
            assert(reg.spent(games[i]));
        } else {
            assert(s[j] == games[j]);
        }
    }
    assert forall|i: int| 0 <= i < s.len() implies !s[i].team1.is_pair(s[i].team2.man, s[i].team2.woman) by {
        if i < last {
            assert(s[i] == games[i]);
        }
    }
    assert forall|i: int| 0 <= i < s.len() implies #[trigger] s[i].sides_disjoint() by {
        if i < last {
            assert(s[i] == games[i]);
        }
    }
    assert forall|i: int| 0 <= i < s.len() implies #[trigger] s[i].in_pools(num_men, num_men + num_women) by {
        if i < last {
            assert(s[i] == games[i]);
        }
    }
}

#[verifier::external_type_specification]
#[verifier::external_body]
pub struct ExStdRng(StdRng);

/// Relies on rand's `SeedableRng::seed_from_u64` for `StdRng`: a generator
/// whose output the seed fixes.
#[verifier::external_body]
fn seeded_rng(seed: u64) -> StdRng {
    StdRng::seed_from_u64(seed)
}

/// Relies on rand's `SeedableRng::from_rng` for `StdRng`, seeded from the
/// thread-local generator `rand::rng()`.
#[verifier::external_body]
fn fresh_rng() -> StdRng {
    StdRng::from_rng(&mut rand::rng())
}

/// Relies on rand's `SliceRandom::shuffle`: the elements are permuted in
/// place.
#[verifier::external_body]
fn shuffle(v: &mut Vec<u32>, rng: &mut StdRng)
    ensures
        final(v)@.to_multiset() == old(v)@.to_multiset(),
{
    v.shuffle(rng);
}

/// The generator, drawing the search order of each pass from `rng`.
fn generate_with(num_men: u32, num_women: u32, rng: &mut StdRng) -> (r: Result<Vec<Game>, ScheduleError>)
    requires
        num_men + num_women <= u32::MAX,
    ensures
        r is Err <==> (num_men == 0 || num_women == 0),
        r matches Err(e) ==> e == ScheduleError::InvalidArgument,
        r matches Ok(games) ==> valid_schedule(games@, num_men as nat, num_women as nat),
        r matches Ok(games) ==> (games@.len() > 0 <==> (num_men >= 2 && num_women >= 2)),
{
    if num_men == 0 || num_women == 0 {
        return Err(ScheduleError::InvalidArgument);
    }
    let ghost nm = num_men as nat;
    let ghost nw = num_women as nat;
    let mut reg = Registry::new(num_men, num_women);
    let mut games: Vec<Game> = Vec::new();
    loop
        invariant
            reg.wf(),
            reg.num_men == nm,
            reg.num_players == nm + nw,
            valid_schedule(games@, nm, nw),
            forall|i: int| 0 <= i < games@.len() ==> reg.spent(#[trigger] games@[i]),
            games@.len() == 0 ==> (forall|p: int| reg.is_player(p) ==> #[trigger] reg.act(p)),
            games@.len() == 0 ==> (forall|p: int, q: int|
                reg.is_player(p) && reg.is_player(q) ==> (#[trigger] reg.team(p, q) <==> !reg.same_pool(p, q))),
            games@.len() == 0 ==> (forall|p: int, q: int|
                reg.is_player(p) && reg.is_player(q) ==> (#[trigger] reg.opp(p, q) <==> p != q)),
        ensures
            valid_schedule(games@, nm, nw),
            nm >= 2 && nw >= 2 ==> games@.len() > 0,
        decreases reg.team_total(),
    {
        let mut order = reg.active_men();
        let ghost unshuffled = order@;
        shuffle(&mut order, rng);
        match reg.find_game(&order) {
            None => {
                proof {
                    if games@.len() == 0 && nm >= 2 && nw >= 2 {
                        let ghost w0 = nm as int;
                        assert(reg.can_play(0, w0, 1, w0 + 1));
                        assert(reg.act(0));
                        assert(unshuffled.contains((0 as int) as u32));
                        assert(unshuffled.to_multiset().count(0u32) > 0);
                        assert(order@.contains(0u32));
                        let k = choose|k: int| 0 <= k < order@.len() && order@[k] == 0u32;
                        assert(!reg.playable(order@[k] as int));
                    }
                }
                break;
            },
            Some(g) => {
                let (m, w, om, ow) = (g.team1.man, g.team1.woman, g.team2.man, g.team2.woman);
                proof {
                    lemma_extend_schedule(&reg, games@, g, nm, nw);
                }
                let ghost old_games = games@;
                games.push(g);
                let ghost r0 = reg;
                remove_players(m, w, om, ow, &mut reg);
                let ghost r1 = reg;
                remove_empty(&mut reg);
                proof {
                    let n = reg.num_players as int;
                    assert forall|i: int| 0 <= i < games@.len() implies reg.spent(#[trigger] games@[i]) by {
                        let h = games@[i];
                        assert forall|a: u32, b: u32|
                            #[trigger] h.teams_up(a, b) && reg.is_player(a as int) && reg.is_player(b as int)
                                implies !reg.team(a as int, b as int) by {
                            assert(reg.team(a as int, b as int) ==> r1.team(a as int, b as int));
                            if i < old_games.len() {
                                assert(h == old_games[i]);
                                assert(r0.spent(old_games[i]));
                                assert(r1.team(a as int, b as int) ==> r0.team(a as int, b as int));
                            }
                        }
                        assert forall|a: u32, b: u32|
                            #[trigger] h.opposes(a, b) && reg.is_player(a as int) && reg.is_player(b as int)
                                implies !reg.opp(a as int, b as int) by {
                            assert(reg.opp(a as int, b as int) ==> r1.opp(a as int, b as int));
                            if i < old_games.len() {
                                assert(h == old_games[i]);
                                assert(r0.spent(old_games[i]));
                                assert(r1.opp(a as int, b as int) ==> r0.opp(a as int, b as int));
                            }
                        }
                    }
                    assert forall|k: int| 0 <= k < n implies (#[trigger] r1.teammates@[k])@.len()
                        == reg.teammates@[k]@.len() by {}
                    assert forall|k: int, l: int|
                        0 <= k < n && 0 <= l < r1.teammates@[k]@.len() && #[trigger] reg.teammates@[k]@[l]
                            implies r1.teammates@[k]@[l] by {
                        assert(reg.team(k, l));
                    }
                    lemma_matrix_count_mono(r1.teammates@, reg.teammates@, -1, -1);
                }
            },
        }
    }
    proof {
        if games@.len() > 0 {
            assert(games@[0].sides_disjoint());
            assert(games@[0].in_pools(nm, nm + nw));
        }
    }
    Ok(games)
}

/// Generates a mixed-doubles schedule for `num_men` men (ids `0..num_men`)
/// and `num_women` women (ids `num_men..num_men + num_women`): no two players
/// partner twice, no two players face each other twice, no player faces
/// themself, and every team is one man and one woman. Each pass searches the
/// active men in a fresh random order and commits the first game found; the
/// run ends when a pass finds none.
pub fn generate(num_men: u32, num_women: u32) -> (r: Result<Vec<Game>, ScheduleError>)
    requires
        num_men + num_women <= u32::MAX,
    ensures
        r is Err <==> (num_men == 0 || num_women == 0),
        r matches Err(e) ==> e == ScheduleError::InvalidArgument,
        r matches Ok(games) ==> valid_schedule(games@, num_men as nat, num_women as nat),
        r matches Ok(games) ==> (games@.len() > 0 <==> (num_men >= 2 && num_women >= 2)),
{
    let mut rng = fresh_rng();
    generate_with(num_men, num_women, &mut rng)
}

/// As `generate`, with the search orders drawn from a generator fixed by
/// `seed`: the same seed gives the same schedule.
pub fn generate_seeded(num_men: u32, num_women: u32, seed: u64) -> (r: Result<Vec<Game>, ScheduleError>)
    requires
        num_men + num_women <= u32::MAX,
    ensures
        r is Err <==> (num_men == 0 || num_women == 0),
        r matches Err(e) ==> e == ScheduleError::InvalidArgument,
        r matches Ok(games) ==> valid_schedule(games@, num_men as nat, num_women as nat),
        r matches Ok(games) ==> (games@.len() > 0 <==> (num_men >= 2 && num_women >= 2)),
{
    let mut rng = seeded_rng(seed);
    generate_with(num_men, num_women, &mut rng)
}

} // verus!
