use pickleball_scheduler::{
    generate, generate_seeded, get_shared, pack, remove_empty, remove_players, Game, Registry, Round,
    ScheduleError, Team,
};
use std::collections::HashSet;

fn game(m1: u32, w1: u32, m2: u32, w2: u32) -> Game {
    Game {
        team1: Team { man: m1, woman: w1 },
        team2: Team { man: m2, woman: w2 },
    }
}

fn players(g: &Game) -> [u32; 4] {
    [g.team1.man, g.team1.woman, g.team2.man, g.team2.woman]
}

fn unordered(a: u32, b: u32) -> (u32, u32) {
    if a < b {
        (a, b)
    } else {
        (b, a)
    }
}

/// Checks the hard constraints of a generated schedule.
fn check_schedule(games: &[Game], num_men: u32, num_women: u32) {
    let mut teams = HashSet::new();
    let mut opponents = HashSet::new();
    for g in games {
        for t in [g.team1, g.team2] {
            assert!(t.man < num_men);
            assert!(t.woman >= num_men && t.woman < num_men + num_women);
            assert!(teams.insert(unordered(t.man, t.woman)), "team repeated");
        }
        let side1 = [g.team1.man, g.team1.woman];
        let side2 = [g.team2.man, g.team2.woman];
        for a in side1 {
            assert!(!side2.contains(&a), "player on both sides");
            for b in side2 {
                assert!(opponents.insert(unordered(a, b)), "opponents repeated");
            }
        }
    }
}

/// Checks the guarantees of a packing of `games`.
fn check_rounds(games: &[Game], rounds: &[Round], cap: usize) {
    let everyone: HashSet<u32> = games.iter().flat_map(players).collect();
    let mut placed = Vec::new();
    for r in rounds {
        assert!(!r.games.is_empty());
        assert!(r.games.len() <= cap);
        let mut seen = HashSet::new();
        for g in &r.games {
            for p in players(g) {
                assert!(seen.insert(p), "player twice in a round");
            }
        }
        let byes: HashSet<u32> = r.byes.iter().copied().collect();
        assert_eq!(byes.len(), r.byes.len());
        assert!(byes.is_disjoint(&seen));
        let union: HashSet<u32> = byes.union(&seen).copied().collect();
        assert_eq!(union, everyone);
        // Within a round, games keep their order in the input.
        let positions: Vec<usize> =
            r.games.iter().map(|g| games.iter().position(|h| h == g).unwrap()).collect();
        assert!(positions.windows(2).all(|w| w[0] < w[1]));
        placed.extend(r.games.iter().copied());
    }
    let mut a: Vec<[u32; 4]> = placed.iter().map(players).collect();
    let mut b: Vec<[u32; 4]> = games.iter().map(players).collect();
    a.sort();
    b.sort();
    assert_eq!(a, b);
}

#[test]
fn generate_rejects_empty_pools() {
    assert_eq!(generate(0, 3), Err(ScheduleError::InvalidArgument));
    assert_eq!(generate(3, 0), Err(ScheduleError::InvalidArgument));
    assert_eq!(generate(0, 0), Err(ScheduleError::InvalidArgument));
}

#[test]
fn generate_two_men_two_women() {
    for _ in 0..20 {
        let games = generate(2, 2).unwrap();
        assert!(games.len() <= 1);
        check_schedule(&games, 2, 2);
        assert_eq!(games.len(), 1);
        let g = games[0];
        let mut ps = players(&g).to_vec();
        ps.sort();
        assert_eq!(ps, vec![0, 1, 2, 3]);
    }
}

#[test]
fn generate_five_by_six_then_pack() {
    for _ in 0..20 {
        let games = generate(5, 6).unwrap();
        check_schedule(&games, 5, 6);
        // Each game uses two of the 5 * 6 possible teams.
        assert!(games.len() <= 15);
        let rounds = pack(&games, 3);
        check_rounds(&games, &rounds, 3);
    }
}

#[test]
fn generate_single_pair_has_no_game() {
    assert_eq!(generate(1, 1), Ok(vec![]));
    assert_eq!(generate(1, 4), Ok(vec![]));
}

#[test]
fn generate_larger_pools() {
    let games = generate(6, 6).unwrap();
    check_schedule(&games, 6, 6);
    assert!(!games.is_empty());
    let rounds = pack(&games, 3);
    check_rounds(&games, &rounds, 3);
}

#[test]
fn pack_empty_list() {
    assert!(pack(&vec![], 4).is_empty());
}

#[test]
fn pack_greedy_rounds_and_byes() {
    let games = vec![
        game(0, 4, 1, 5),
        game(0, 5, 2, 6),
        game(2, 6, 3, 7),
        game(1, 7, 3, 4),
    ];
    let rounds = pack(&games, 2);
    assert_eq!(rounds.len(), 2);
    assert_eq!(rounds[0].games, vec![games[0], games[2]]);
    assert_eq!(rounds[0].byes, Vec::<u32>::new());
    assert_eq!(rounds[1].games, vec![games[1], games[3]]);
    assert_eq!(rounds[1].byes, Vec::<u32>::new());
}

#[test]
fn pack_respects_capacity() {
    let games = vec![game(0, 6, 1, 7), game(2, 8, 3, 9), game(4, 10, 5, 11)];
    let rounds = pack(&games, 2);
    assert_eq!(rounds.len(), 2);
    assert_eq!(rounds[0].games, vec![games[0], games[1]]);
    assert_eq!(rounds[0].byes, vec![4, 10, 5, 11]);
    assert_eq!(rounds[1].games, vec![games[2]]);
    assert_eq!(rounds[1].byes, vec![0, 6, 1, 7, 2, 8, 3, 9]);
}

#[test]
fn get_shared_intersects() {
    let a = vec![true, true, false, false];
    let b = vec![true, false, true, false];
    assert_eq!(get_shared(&a, &b), vec![true, false, false, false]);
    assert_eq!(get_shared(&vec![], &vec![]), Vec::<bool>::new());
}

#[test]
fn new_registry_is_full() {
    let r = Registry::new(2, 3);
    assert_eq!(r.num_men, 2);
    assert_eq!(r.num_players, 5);
    assert_eq!(r.active, vec![true; 5]);
    assert_eq!(r.teammates[0], vec![false, false, true, true, true]);
    assert_eq!(r.teammates[3], vec![true, true, false, false, false]);
    assert_eq!(r.opponents[1], vec![true, false, true, true, true]);
    assert_eq!(r.active_men(), vec![0, 1]);
}

#[test]
fn find_game_takes_first_in_order() {
    let r = Registry::new(2, 2);
    assert_eq!(r.find_game(&vec![1, 0]), Some(game(1, 2, 0, 3)));
    assert_eq!(r.find_game(&vec![0, 1]), Some(game(0, 2, 1, 3)));
    assert_eq!(r.find_game(&vec![7, 2]), None);
    assert_eq!(r.find_game(&vec![]), None);
}

#[test]
fn remove_players_prunes_candidates() {
    let mut r = Registry::new(2, 2);
    remove_players(0, 2, 1, 3, &mut r);
    assert_eq!(r.teammates[0], vec![false, false, false, true]);
    assert_eq!(r.teammates[2], vec![false, true, false, false]);
    assert_eq!(r.opponents[0], vec![false, false, true, false]);
    assert_eq!(r.opponents[3], vec![false, true, false, false]);
    assert_eq!(r.active, vec![true; 4]);
}

#[test]
fn remove_empty_cascades() {
    let mut r = Registry::new(2, 2);
    remove_players(0, 2, 1, 3, &mut r);
    remove_empty(&mut r);
    assert_eq!(r.active, vec![false; 4]);
    assert!(r.teammates.iter().all(|row| row.iter().all(|x| !x)));
    assert!(r.opponents.iter().all(|row| row.iter().all(|x| !x)));
    assert_eq!(r.find_game(&vec![0, 1]), None);
}

#[test]
fn remove_empty_keeps_playable_players() {
    let mut r = Registry::new(3, 3);
    remove_empty(&mut r);
    assert_eq!(r.active, vec![true; 6]);
    let mut one = Registry::new(1, 2);
    remove_empty(&mut one);
    assert_eq!(one.active, vec![false; 3]);
}

#[test]
fn generate_seeded_is_repeatable() {
    for seed in [0u64, 1, 42, u64::MAX] {
        let a = generate_seeded(5, 6, seed).unwrap();
        let b = generate_seeded(5, 6, seed).unwrap();
        assert_eq!(a, b);
        check_schedule(&a, 5, 6);
        assert!(!a.is_empty());
        check_rounds(&a, &pack(&a, 3), 3);
    }
    assert_eq!(generate_seeded(0, 3, 7), Err(ScheduleError::InvalidArgument));
}

#[test]
fn generate_needs_two_of_each_pool() {
    assert_eq!(generate_seeded(2, 1, 3), Ok(vec![]));
    assert_eq!(generate_seeded(1, 2, 3), Ok(vec![]));
    assert_eq!(generate_seeded(2, 2, 3).unwrap().len(), 1);
}
