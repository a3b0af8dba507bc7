use vstd::prelude::*;
use vstd::multiset::Multiset;
use crate::game::{Game, Round};

verus! {

broadcast use vstd::seq_lib::group_to_multiset_ensures, vstd::seq_lib::lemma_seq_contains_after_push;

/// Player `p` plays in some game of `s`.
pub open spec fn plays_in(s: Seq<Game>, p: u32) -> bool {
    exists|i: int| 0 <= i < s.len() && #[trigger] s[i].has(p)
}

/// `g` has no player in common with any game of `taken`.
pub open spec fn fits(taken: Seq<Game>, g: Game) -> bool {
    forall|i: int| 0 <= i < taken.len() ==> #[trigger] taken[i].apart(g)
}

/// One greedy scan over `games`: a game is accepted when fewer than `cap`
/// games are accepted so far and it shares no player with them. The result
/// is the accepted games and the rejected ones, each in input order.
pub open spec fn scan(games: Seq<Game>, cap: nat) -> (Seq<Game>, Seq<Game>)
    decreases games.len(),
{
    if games.len() == 0 {
        (seq![], seq![])
    } else {
        let (a, r) = scan(games.drop_last(), cap);
        let g = games.last();
        if a.len() < cap && fits(a, g) {
            (a.push(g), r)
        } else {
            (a, r.push(g))
        }
    }
}

/// The games not yet placed after `k` rounds.
pub open spec fn left_after(games: Seq<Game>, cap: nat, k: nat) -> Seq<Game>
    decreases k,
{
    if k == 0 {
        games
    } else {
        scan(left_after(games, cap, (k - 1) as nat), cap).1
    }
}

/// Every player of every game, game by game, team by team.
pub open spec fn flatten(games: Seq<Game>) -> Seq<u32>
    decreases games.len(),
{
    if games.len() == 0 {
        seq![]
    } else {
        flatten(games.drop_last()) + games.last().players()
    }
}

/// The entries of `s` without repeats, in order of first appearance.
pub open spec fn distinct(s: Seq<u32>) -> Seq<u32>
    decreases s.len(),
{
    if s.len() == 0 {
        seq![]
    } else {
        let d = distinct(s.drop_last());
        if d.contains(s.last()) {
            d
        } else {
            d.push(s.last())
        }
    }
}

/// Every player of `games`, once each, in order of first appearance.
pub open spec fn all_players(games: Seq<Game>) -> Seq<u32> {
    distinct(flatten(games))
}

/// The entries of `everyone` that play in no game of `round`, in order.
pub open spec fn byes_of(everyone: Seq<u32>, round: Seq<Game>) -> Seq<u32>
    decreases everyone.len(),
{
    if everyone.len() == 0 {
        seq![]
    } else {
        let b = byes_of(everyone.drop_last(), round);
        if plays_in(round, everyone.last()) {
            b
        } else {
            b.push(everyone.last())
        }
    }
}

/// `r` is the round `k` of packing `games` onto `cap` courts: some games are
/// still to be placed, `r` holds those that the next scan accepts, and its
/// byes are the players of the whole list that sit out.
pub open spec fn is_round(games: Seq<Game>, cap: nat, k: nat, r: Round) -> bool {
    &&& left_after(games, cap, k).len() > 0
    &&& r.games@ == scan(left_after(games, cap, k), cap).0
    &&& r.byes@ == byes_of(all_players(games), r.games@)
}

/// `idx` picks out `a` from `b`, at increasing positions.
pub open spec fn embeds(idx: Seq<int>, a: Seq<Game>, b: Seq<Game>) -> bool {
    &&& idx.len() == a.len()
    &&& forall|i: int| 0 <= i < a.len() ==> 0 <= #[trigger] idx[i] < b.len() && b[idx[i]] == a[i]
    &&& forall|i: int, j: int| 0 <= i < j < a.len() ==> #[trigger] idx[i] < #[trigger] idx[j]
}

/// `a` is `b` with some entries left out and the others kept in order.
pub open spec fn is_subsequence(a: Seq<Game>, b: Seq<Game>) -> bool {
    exists|idx: Seq<int>| #[trigger] embeds(idx, a, b)
}

/// The games of all rounds, round after round.
pub open spec fn concat_games(rounds: Seq<Round>) -> Seq<Game>
    decreases rounds.len(),
{
    if rounds.len() == 0 {
        seq![]
    } else {
        concat_games(rounds.drop_last()) + rounds.last().games@
    }
}

/// The scan splits its input, accepts at most `cap` games that pairwise share
/// no player, and accepts the first game whenever `cap` is positive.
proof fn lemma_scan(games: Seq<Game>, cap: nat)
    ensures
        scan(games, cap).0.to_multiset().add(scan(games, cap).1.to_multiset()) == games.to_multiset(),
        scan(games, cap).0.len() + scan(games, cap).1.len() == games.len(),
        scan(games, cap).0.len() <= cap,
        games.len() > 0 && cap > 0 ==> scan(games, cap).0.len() > 0,
        forall|i: int, j: int|
            0 <= i < j < scan(games, cap).0.len() ==> (#[trigger] scan(games, cap).0[i]).apart(
                #[trigger] scan(games, cap).0[j],
            ),
    decreases games.len(),
{
    if games.len() > 0 {
        let prefix = games.drop_last();
        lemma_scan(prefix, cap);
        let (a, r) = scan(prefix, cap);
        let g = games.last();
        assert(games =~= prefix.push(g));
        if a.len() < cap && fits(a, g) {
            let a2 = a.push(g);
            assert forall|i: int, j: int| 0 <= i < j < a2.len() implies (#[trigger] a2[i]).apart(#[trigger] a2[j]) by {
                if j == a.len() {
                    assert(a[i].apart(g));
                } else {
                    assert(a2[i] == a[i] && a2[j] == a[j]);
                }
            }
        }
    } else {
        assert(games.to_multiset() =~= Multiset::empty());
    }
}


proof fn lemma_distinct_contains(s: Seq<u32>, p: u32)
    ensures
        distinct(s).contains(p) <==> s.contains(p),
    decreases s.len(),
{
    if s.len() > 0 {
        let prefix = s.drop_last();
        lemma_distinct_contains(prefix, p);
        assert(s =~= prefix.push(s.last()));
    }
}

proof fn lemma_flatten_contains(games: Seq<Game>, p: u32)
    ensures
        flatten(games).contains(p) <==> plays_in(games, p),
    decreases games.len(),
{
    if games.len() > 0 {
        let prefix = games.drop_last();
        let g = games.last();
        lemma_flatten_contains(prefix, p);
        let f = flatten(prefix);
        let all = f + g.players();
        if plays_in(games, p) {
            let i = choose|i: int| 0 <= i < games.len() && #[trigger] games[i].has(p);
            if i == games.len() - 1 {
                let k: int = if g.team1.man == p { 0 } else if g.team1.woman == p { 1 } else if g.team2.man == p { 2 } else { 3 };
                assert(all[f.len() + k] == p);
            } else {
                assert(prefix[i] == games[i]);
                let k = choose|k: int| 0 <= k < f.len() && f[k] == p;
                assert(all[k] == p);
            }
        }
        if all.contains(p) {
            let k = choose|k: int| 0 <= k < all.len() && all[k] == p;
            if k < f.len() {
                assert(f[k] == p);
                let i = choose|i: int| 0 <= i < prefix.len() && #[trigger] prefix[i].has(p);
                assert(games[i] == prefix[i]);
            } else {
                assert(g.players()[k - f.len()] == p);
                assert(games[games.len() - 1].has(p));
            }
        }
    }
}

proof fn lemma_byes_contains(everyone: Seq<u32>, round: Seq<Game>, p: u32)
    ensures
        byes_of(everyone, round).contains(p) <==> (everyone.contains(p) && !plays_in(round, p)),
    decreases everyone.len(),
{
    if everyone.len() > 0 {
        let prefix = everyone.drop_last();
        lemma_byes_contains(prefix, round, p);
        assert(everyone =~= prefix.push(everyone.last()));
    }
}

/// The byes of a round are exactly the players of the whole list that do not
/// play in the round.
proof fn lemma_round_byes(games: Seq<Game>, round: Seq<Game>)
    requires
        forall|x: Game| round.contains(x) ==> games.contains(x),
    ensures
        forall|p: u32|
            (#[trigger] byes_of(all_players(games), round).contains(p) || plays_in(round, p))
                <==> plays_in(games, p),
        forall|p: u32| !(#[trigger] byes_of(all_players(games), round).contains(p) && plays_in(round, p)),
{
    assert forall|p: u32|
        (#[trigger] byes_of(all_players(games), round).contains(p) || plays_in(round, p))
            <==> plays_in(games, p) by {
        lemma_byes_contains(all_players(games), round, p);
        lemma_distinct_contains(flatten(games), p);
        lemma_flatten_contains(games, p);
        if plays_in(round, p) {
            let i = choose|i: int| 0 <= i < round.len() && #[trigger] round[i].has(p);
            assert(round.contains(round[i]));
            let j = choose|j: int| 0 <= j < games.len() && games[j] == round[i];
            assert(games[j].has(p));
        }
    }
    assert forall|p: u32| !(#[trigger] byes_of(all_players(games), round).contains(p) && plays_in(round, p)) by {
        lemma_byes_contains(all_players(games), round, p);
    }
}

/// Both outputs of a scan keep the input order.
proof fn lemma_scan_order(games: Seq<Game>, cap: nat) -> (r: (Seq<int>, Seq<int>))
    ensures
        embeds(r.0, scan(games, cap).0, games),
        embeds(r.1, scan(games, cap).1, games),
    decreases games.len(),
{
    if games.len() == 0 {
        (seq![], seq![])
    } else {
        let prefix = games.drop_last();
        let (ia, ir) = lemma_scan_order(prefix, cap);
        let (a, r) = scan(prefix, cap);
        let last = prefix.len() as int;
        assert forall|i: int| 0 <= i < prefix.len() implies games[i] == prefix[i] by {}
        if a.len() < cap && fits(a, games.last()) {
            let ia2 = ia.push(last);
            assert(embeds(ia2, a.push(games.last()), games));
            assert(embeds(ir, r, games));
            (ia2, ir)
        } else {
            let ir2 = ir.push(last);
            assert(embeds(ir2, r.push(games.last()), games));
            assert(embeds(ia, a, games));
            (ia, ir2)
        }
    }
}

proof fn lemma_embeds_trans(i1: Seq<int>, i2: Seq<int>, a: Seq<Game>, b: Seq<Game>, c: Seq<Game>) -> (r: Seq<int>)
    requires
        embeds(i1, a, b),
        embeds(i2, b, c),
    ensures
        embeds(r, a, c),
{
    let r = Seq::new(i1.len(), |k: int| i2[i1[k]]);
    assert forall|i: int, j: int| 0 <= i < j < a.len() implies #[trigger] r[i] < #[trigger] r[j] by {
        assert(i1[i] < i1[j]);
    }
    r
}

/// The games left after `k` rounds keep the input order.
proof fn lemma_left_order(games: Seq<Game>, cap: nat, k: nat) -> (r: Seq<int>)
    ensures
        embeds(r, left_after(games, cap, k), games),
    decreases k,
{
    if k == 0 {
        let r = Seq::new(games.len(), |i: int| i);
        r
    } else {
        let prev = left_after(games, cap, (k - 1) as nat);
        let i1 = lemma_left_order(games, cap, (k - 1) as nat);
        let (_ia, ir) = lemma_scan_order(prev, cap);
        lemma_embeds_trans(ir, i1, scan(prev, cap).1, prev, games)
    }
}

/// The games of round `k` keep the input order.
proof fn lemma_round_order(games: Seq<Game>, cap: nat, k: nat)
    ensures
        is_subsequence(scan(left_after(games, cap, k), cap).0, games),
{
    let left = left_after(games, cap, k);
    let i1 = lemma_left_order(games, cap, k);
    let (ia, _ir) = lemma_scan_order(left, cap);
    let r = lemma_embeds_trans(ia, i1, scan(left, cap).0, left, games);
    assert(embeds(r, scan(left, cap).0, games));
}

fn game_has(g: &Game, p: u32) -> (r: bool)
    ensures
        r == g.has(p),
{
    g.team1.man == p || g.team1.woman == p || g.team2.man == p || g.team2.woman == p
}

/// Whether the two games have no player in common.
fn games_apart(a: &Game, b: &Game) -> (r: bool)
    ensures
        r == a.apart(*b),
{
    let r = !game_has(a, b.team1.man) && !game_has(a, b.team1.woman) && !game_has(a, b.team2.man)
        && !game_has(a, b.team2.woman);
    proof {
        if !r {
            if a.has(b.team1.man) {
                assert(!(a.has(b.team1.man) && b.has(b.team1.man) ==> false));
            } else if a.has(b.team1.woman) {
                assert(!(a.has(b.team1.woman) && b.has(b.team1.woman) ==> false));
            } else if a.has(b.team2.man) {
                assert(!(a.has(b.team2.man) && b.has(b.team2.man) ==> false));
            } else {
                assert(!(a.has(b.team2.woman) && b.has(b.team2.woman) ==> false));
            }
        }
    }
    r
}

/// Whether `g` shares no player with any game of `taken`.
fn fits_round(taken: &Vec<Game>, g: &Game) -> (r: bool)
    ensures
        r == fits(taken@, *g),
{
    for i in 0..taken.len()
        invariant
            forall|k: int| 0 <= k < i ==> #[trigger] taken@[k].apart(*g),
    {
        if !games_apart(&taken[i], g) {
            return false;
        }
    }
    true
}

/// One greedy scan: the games accepted into a round and the games left.
fn scan_round(games: &Vec<Game>, cap: usize) -> (r: (Vec<Game>, Vec<Game>))
    ensures
        (r.0@, r.1@) == scan(games@, cap as nat),
{
    let mut accepted: Vec<Game> = Vec::new();
    let mut rejected: Vec<Game> = Vec::new();
    for i in 0..games.len()
        invariant
            (accepted@, rejected@) == scan(games@.take(i as int), cap as nat),
    {
        let g = games[i];
        proof {
            assert(games@.take(i + 1).drop_last() =~= games@.take(i as int));
            assert(games@.take(i + 1).last() == g);
        }
        if accepted.len() < cap && fits_round(&accepted, &g) {
            accepted.push(g);
        } else {
            rejected.push(g);
        }
    }
    proof {
        assert(games@.take(games@.len() as int) =~= games@);
    }
    (accepted, rejected)
}

/// Whether `p` plays in some game of `round`.
fn plays_in_round(round: &Vec<Game>, p: u32) -> (r: bool)
    ensures
        r == plays_in(round@, p),
{
    for i in 0..round.len()
        invariant
            forall|k: int| 0 <= k < i ==> !#[trigger] round@[k].has(p),
    {
        if game_has(&round[i], p) {
            return true;
        }
    }
    false
}

/// The players of `everyone` that sit out `round`, in order.
fn round_byes(everyone: &Vec<u32>, round: &Vec<Game>) -> (r: Vec<u32>)
    ensures
        r@ == byes_of(everyone@, round@),
{
    let mut byes: Vec<u32> = Vec::new();
    for i in 0..everyone.len()
        invariant
            byes@ == byes_of(everyone@.take(i as int), round@),
    {
        let p = everyone[i];
        proof {
            assert(everyone@.take(i + 1).drop_last() =~= everyone@.take(i as int));
            assert(everyone@.take(i + 1).last() == p);
        }
        if !plays_in_round(round, p) {
            byes.push(p);
        }
    }
    proof {
        assert(everyone@.take(everyone@.len() as int) =~= everyone@);
    }
    byes
}

fn push_new(acc: &mut Vec<u32>, p: u32)
    ensures
        final(acc)@ == if old(acc)@.contains(p) { old(acc)@ } else { old(acc)@.push(p) },
{
    let mut i: usize = 0;
    while i < acc.len()
        invariant
            i <= acc@.len(),
            acc@ == old(acc)@,
            forall|k: int| 0 <= k < i ==> acc@[k] != p,
        decreases acc@.len() - i,
    {
        if acc[i] == p {
            return;
        }
        i += 1;
    }
    acc.push(p);
}

/// Every player of `games`, once each, in order of first appearance.
fn collect_players(games: &Vec<Game>) -> (r: Vec<u32>)
    ensures
        r@ == all_players(games@),
{
    let mut acc: Vec<u32> = Vec::new();
    for i in 0..games.len()
        invariant
            acc@ == distinct(flatten(games@.take(i as int))),
    {
        let g = games[i];
        let ghost f0 = flatten(games@.take(i as int));
        let ghost f1 = f0.push(g.team1.man);
        let ghost f2 = f1.push(g.team1.woman);
        let ghost f3 = f2.push(g.team2.man);
        let ghost f4 = f3.push(g.team2.woman);
        push_new(&mut acc, g.team1.man);
        proof {
            assert(f1.drop_last() =~= f0);
            assert(acc@ == distinct(f1));
        }
        push_new(&mut acc, g.team1.woman);
        proof {
            assert(f2.drop_last() =~= f1);
            assert(acc@ == distinct(f2));
        }
        push_new(&mut acc, g.team2.man);
        proof {
            assert(f3.drop_last() =~= f2);
            assert(acc@ == distinct(f3));
        }
        push_new(&mut acc, g.team2.woman);
        proof {
            assert(f4.drop_last() =~= f3);
            assert(acc@ == distinct(f4));
            assert(games@.take(i + 1).drop_last() =~= games@.take(i as int));
            assert(games@.take(i + 1).last() == g);
            assert(f4 =~= f0 + g.players());
            assert(flatten(games@.take(i + 1)) == f0 + g.players());
        }
    }
    proof {
        assert(games@.take(games@.len() as int) =~= games@);
    }
    acc
}

/// Splits `games` into rounds of at most `court_capacity` concurrent games.
/// Each round is one greedy scan over the games not yet placed, in order: a
/// game joins the round when the round has room and the game shares no player
/// with it. The byes of a round are the players of the whole list that do not
/// play in it, in order of first appearance in `games`.
pub fn pack(games: &Vec<Game>, court_capacity: u32) -> (rounds: Vec<Round>)
    requires
        court_capacity > 0,
    ensures
        left_after(games@, court_capacity as nat, rounds@.len() as nat).len() == 0,
        forall|k: int|
            0 <= k < rounds@.len() ==> is_round(games@, court_capacity as nat, k as nat, #[trigger] rounds@[k]),
        forall|k: int| 0 <= k < rounds@.len() ==> (#[trigger] rounds@[k]).games@.len() <= court_capacity,
        forall|k: int, i: int, j: int|
            0 <= k < rounds@.len() && 0 <= i < j < rounds@[k].games@.len() ==> (
            #[trigger] rounds@[k].games@[i]).apart(#[trigger] rounds@[k].games@[j]),
        concat_games(rounds@).to_multiset() == games@.to_multiset(),
        forall|k: int|
            0 <= k < rounds@.len() ==> is_subsequence((#[trigger] rounds@[k]).games@, games@),
        forall|k: int, p: u32|
            #![trigger rounds@[k].byes@.contains(p)]
            #![trigger plays_in(rounds@[k].games@, p)]
            0 <= k < rounds@.len() ==> (rounds@[k].byes@.contains(p) || plays_in(
                rounds@[k].games@,
                p,
            ) <==> plays_in(games@, p)),
        forall|k: int, p: u32|
            #![trigger rounds@[k].byes@.contains(p)]
            #![trigger plays_in(rounds@[k].games@, p)]
            0 <= k < rounds@.len() ==> !(rounds@[k].byes@.contains(p) && plays_in(
                rounds@[k].games@,
                p,
            )),
{
    let ghost cap = court_capacity as nat;
    let everyone = collect_players(games);
    let mut left: Vec<Game> = Vec::new();
    for i in 0..games.len()
        invariant
            left@ == games@.take(i as int),
    {
        left.push(games[i]);
        proof {
            assert(left@ =~= games@.take(i + 1));
        }
    }
    proof {
        assert(left@ =~= games@);
        assert(concat_games(Seq::<Round>::empty()) == Seq::<Game>::empty());
        assert(Seq::<Game>::empty().to_multiset().add(games@.to_multiset()) =~= games@.to_multiset());
    }
    let mut rounds: Vec<Round> = Vec::new();
    while left.len() > 0
        invariant
            court_capacity > 0,
            cap == court_capacity as nat,
            everyone@ == all_players(games@),
            left@ == left_after(games@, cap, rounds@.len() as nat),
            forall|x: Game| left@.contains(x) ==> games@.contains(x),
            concat_games(rounds@).to_multiset().add(left@.to_multiset()) == games@.to_multiset(),
            forall|k: int| 0 <= k < rounds@.len() ==> is_round(games@, cap, k as nat, #[trigger] rounds@[k]),
            forall|k: int| 0 <= k < rounds@.len() ==> (#[trigger] rounds@[k]).games@.len() <= court_capacity,
            forall|k: int, i: int, j: int|
                0 <= k < rounds@.len() && 0 <= i < j < rounds@[k].games@.len() ==> (
                #[trigger] rounds@[k].games@[i]).apart(#[trigger] rounds@[k].games@[j]),
            forall|k: int, p: u32|
                #![trigger rounds@[k].byes@.contains(p)]
                #![trigger plays_in(rounds@[k].games@, p)]
                0 <= k < rounds@.len() ==> (rounds@[k].byes@.contains(p) || plays_in(
                    rounds@[k].games@,
                    p,
                ) <==> plays_in(games@, p)),
            forall|k: int, p: u32|
                #![trigger rounds@[k].byes@.contains(p)]
                #![trigger plays_in(rounds@[k].games@, p)]
                0 <= k < rounds@.len() ==> !(rounds@[k].byes@.contains(p) && plays_in(
                    rounds@[k].games@,
                    p,
                )),
        decreases left@.len(),
    {
        let (accepted, rest) = scan_round(&left, court_capacity as usize);
        proof {
            lemma_scan(left@, cap);
            assert forall|x: Game| accepted@.contains(x) implies games@.contains(x) by {
                assert(accepted@.to_multiset().count(x) > 0);
                assert(left@.to_multiset().count(x) > 0);
            }
            assert forall|x: Game| rest@.contains(x) implies games@.contains(x) by {
                assert(rest@.to_multiset().count(x) > 0);
                assert(left@.to_multiset().count(x) > 0);
            }
            lemma_round_byes(games@, accepted@);
        }
        let byes = round_byes(&everyone, &accepted);
        let ghost old_rounds = rounds@;
        let round = Round { games: accepted, byes };
        rounds.push(round);
        left = rest;
        proof {
            let k = old_rounds.len();
            assert(rounds@.drop_last() =~= old_rounds);
            assert(rounds@[k as int] == round);
            vstd::seq_lib::lemma_multiset_commutative(concat_games(old_rounds), round.games@);
            assert(concat_games(rounds@).to_multiset().add(left@.to_multiset())
                =~= concat_games(old_rounds).to_multiset().add(
                round.games@.to_multiset().add(left@.to_multiset()),
            ));
            assert(is_round(games@, cap, k as nat, round));
            assert forall|k2: int| 0 <= k2 < rounds@.len() implies is_round(games@, cap, k2 as nat, #[trigger] rounds@[k2]) by {
                if k2 < k {
                    assert(rounds@[k2] == old_rounds[k2]);
                }
            }
        }
    }
    proof {
        assert(concat_games(rounds@).to_multiset().add(left@.to_multiset())
            =~= concat_games(rounds@).to_multiset());
        assert forall|k: int| 0 <= k < rounds@.len() implies is_subsequence(
            (#[trigger] rounds@[k]).games@,
            games@,
        ) by {
            assert(is_round(games@, cap, k as nat, rounds@[k]));
            lemma_round_order(games@, cap, k as nat);
        }
    }
    rounds
}

} // verus!
