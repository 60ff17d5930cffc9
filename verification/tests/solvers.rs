use reversi::game::Game;
use reversi::solvers::incremental::Incremental;
use reversi::solvers::parallel::{expand, Parallel};
use reversi::solvers::random::{Random, Seed};
use reversi::solvers::{DepthFirstIterator, Node, NodeBuilder};
use reversi::transcript::{Transcript, DEPTH_FIRST};

fn replayed(text: &str) -> Game {
    Game::from_transcript(&Transcript::from_string(text).unwrap())
}

// The game of the first outcome, cut off `plies` entries before its end.
fn late_game(plies: usize) -> Game {
    let all = Transcript::from_string(DEPTH_FIRST).unwrap();
    Game::from_transcript(&all[..all.len() - plies])
}

fn all_outcomes(game: &Game) -> Vec<String> {
    let mut search = Incremental::new(game);
    let mut found = Vec::new();
    while let Some(g) = search.next() {
        found.push(Transcript::stringify(&g.transcript));
    }
    found
}

#[test]
fn verify_left_depth_first_iterator() {
    let expected_transcript = "D3C3B3B2B1A1C4C1C2D2D1E1A2A3F5E2F1G1PPF2PPE3PPB5B4A5A4C5A6F4F3G3G2H2H1H3H4G4C6G5H5B6C7D6E6F6G6H6H7A7PPB7A8D7E7F7G7G8B8C8D8E8F8H8";
    let mut depth_first_iterator = DepthFirstIterator::new(NodeBuilder::left, &Game::new());
    let first_result = depth_first_iterator.next().unwrap();

    assert_eq!(
        Transcript::from_string(expected_transcript).unwrap(),
        first_result.transcript
    );
}

#[test]
fn verify_left_incremental() {
    let expected_transcript = "D3C3B3B2B1A1C4C1C2D2D1E1A2A3F5E2F1G1PPF2PPE3PPB5B4A5A4C5A6F4F3G3G2H2H1H3H4G4C6G5H5B6C7D6E6F6G6H6H7A7PPB7A8D7E7F7G7G8B8C8D8E8F8H8";
    let mut incremental = Incremental::new(&Game::new());
    let first_result = incremental.next().unwrap();

    assert_eq!(
        Transcript::from_string(expected_transcript).unwrap(),
        first_result.transcript
    );
}

#[test]
fn first_outcome_is_the_known_constant() {
    let mut incremental = Incremental::new(&Game::new());
    let first = incremental.next().unwrap();
    assert_eq!(Transcript::stringify(&first.transcript), DEPTH_FIRST);
    assert!(first.is_complete());
}

#[test]
fn search_of_a_finished_game_hands_it_out_once() {
    let done = replayed(reversi::transcript::MANUBU_MARUO);
    let mut search = Incremental::new(&done);
    let only = search.next().unwrap();
    assert_eq!(only.transcript, done.transcript);
    assert!(search.next().is_none());
    assert!(search.next().is_none());
}

#[test]
fn search_is_exhausted_in_the_end() {
    let game = late_game(8);
    let found = all_outcomes(&game);
    assert!(!found.is_empty());
    let prefix = Transcript::stringify(&game.transcript);
    for line in &found {
        assert!(line.starts_with(&prefix));
        assert!(replayed(line).is_complete());
    }
    // no line twice
    let mut sorted = found.clone();
    sorted.sort();
    sorted.dedup();
    assert_eq!(sorted.len(), found.len());
    // the first line is the one the game was cut from
    assert_eq!(found[0], DEPTH_FIRST);
}

#[test]
fn two_searches_agree() {
    let game = late_game(9);
    assert_eq!(all_outcomes(&game), all_outcomes(&game));
}

#[test]
fn orders_find_the_same_lines() {
    let game = late_game(8);
    let mut forward = all_outcomes(&game);

    let mut left = DepthFirstIterator::new(NodeBuilder::left, &game);
    let mut by_left = Vec::new();
    while let Some(g) = left.next() {
        by_left.push(Transcript::stringify(&g.transcript));
    }
    assert_eq!(by_left, forward);

    let mut right = DepthFirstIterator::new(NodeBuilder::right, &game);
    let mut by_right = Vec::new();
    while let Some(g) = right.next() {
        by_right.push(Transcript::stringify(&g.transcript));
    }
    let mut random = DepthFirstIterator::new(NodeBuilder::random, &game);
    let mut by_chance = Vec::new();
    while let Some(g) = random.next() {
        assert!(g.is_complete());
        by_chance.push(Transcript::stringify(&g.transcript));
    }

    forward.sort();
    by_right.sort();
    by_chance.sort();
    assert_eq!(by_right, forward);
    assert_eq!(by_chance, forward);
}

#[test]
fn right_order_starts_at_the_other_end() {
    let mut right = DepthFirstIterator::new(NodeBuilder::right, &Game::new());
    let first = right.next().unwrap();
    // the last opening move in scanning order is E6
    assert_eq!(first.transcript[0], Transcript::from_chars('E', '6').unwrap());
    assert!(first.is_complete());
}

#[test]
fn node_of_the_opening_has_four_moves() {
    let mut node = Node::new(&Game::new());
    assert!(!node.is_exhausted());
    let first = node.take_move().unwrap();
    assert_eq!(first.position, reversi::position::Position { x: 3, y: 2 });
    assert!(node.take_move().is_some());
    assert!(node.take_move().is_some());
    let last = node.take_move().unwrap();
    assert_eq!(last.position, reversi::position::Position { x: 4, y: 5 });
    assert!(node.take_move().is_none());
    assert!(node.is_exhausted());
}

#[test]
fn seeds_are_six_moves_deep() {
    let parallel = Parallel::new();
    assert_eq!(parallel.queue.len(), 2050);
    for g in &parallel.queue {
        assert_eq!(g.transcript.len(), 6);
        assert_eq!(g.transcript[0], Transcript::from_chars('D', '3').unwrap());
    }
}

#[test]
fn expand_by_nothing_is_the_game() {
    let frontier = expand(&Game::new(), 0);
    assert_eq!(frontier.len(), 1);
    assert!(frontier[0].transcript.is_empty());
}

#[test]
fn expand_one_turn_comes_last_move_first() {
    let frontier = expand(&Game::new(), 1);
    let texts: Vec<String> = frontier
        .iter()
        .map(|g| Transcript::stringify(&g.transcript))
        .collect();
    assert_eq!(texts, vec!["E6", "F5", "C4", "D3"]);
}

#[test]
fn expand_keeps_finished_games_and_passes() {
    // one move before the end of the nine-move game
    let eight = replayed("E6F4E3F6G5D6E7F5");
    let one = expand(&eight, 1);
    assert!(one.iter().any(|g| Transcript::stringify(&g.transcript) == "E6F4E3F6G5D6E7F5C5"));
    // the finished game stays in every later frontier
    let three = expand(&eight, 3);
    assert!(three.iter().any(|g| Transcript::stringify(&g.transcript) == "E6F4E3F6G5D6E7F5C5"));
    // a frontier of finished games stays as it is
    let done = replayed("E6F4E3F6G5D6E7F5C5");
    let later = expand(&done, 5);
    assert_eq!(later.len(), 1);
    assert_eq!(later[0].transcript, done.transcript);
    // a player who cannot move passes
    let stuck = late_game(0);
    assert!(stuck.is_complete());
    let before_pass = replayed("D3C3B3B2B1A1C4C1C2D2D1E1A2A3F5E2F1G1");
    assert_eq!(before_pass.valid_moves().len(), 0);
    let after = expand(&before_pass, 1);
    assert_eq!(after.len(), 1);
    assert_eq!(*after[0].transcript.last().unwrap(), Transcript::Pass);
}

#[test]
fn deeper_frontier_continues_the_shallower() {
    let game = late_game(10);
    for shallow in 0..4usize {
        for deep in shallow..5usize {
            let a = expand(&game, shallow);
            let b = expand(&game, deep);
            for g in &a {
                assert!(b.iter().any(|h| h.transcript.starts_with(&g.transcript)));
            }
        }
    }
}

#[test]
fn seeds_partition_the_search() {
    let game = late_game(9);
    let mut whole = all_outcomes(&game);
    for depth in 0..5usize {
        let mut parts = Vec::new();
        for seed in expand(&game, depth) {
            parts.extend(all_outcomes(&seed));
        }
        parts.sort();
        whole.sort();
        assert_eq!(parts, whole);
    }
}

#[test]
fn default_seed_is_the_digest_of_reversi() {
    let seed = Seed::new();
    assert_eq!(seed.string, "reversi");
    assert_eq!(
        seed.value(),
        &[
            37, 124, 153, 233, 114, 84, 184, 29, 179, 30, 151, 168, 203, 211, 238, 32, 24, 173,
            80, 191, 91, 169, 47, 128, 210, 248, 235, 135, 94, 208, 22, 175
        ]
    );
}

#[test]
fn seed_of_the_empty_text() {
    let seed = Seed::from_string(String::new());
    assert_eq!(
        seed.value(),
        &[
            227, 176, 196, 66, 152, 252, 28, 20, 154, 251, 244, 200, 153, 111, 185, 36, 39, 174,
            65, 228, 100, 155, 147, 76, 164, 149, 153, 27, 120, 82, 184, 85
        ]
    );
}

#[test]
fn random_games_are_finished_and_repeatable() {
    let mut a = Random::new(Game::new(), Seed::new());
    let mut b = Random::new(Game::new(), Seed::new());
    for _ in 0..5 {
        let x = a.next().unwrap();
        let y = b.next().unwrap();
        assert!(x.is_complete());
        assert_eq!(x.transcript, y.transcript);
        // the transcript replays to the same game
        let again = Game::from_transcript(&x.transcript);
        assert_eq!(again.score(), x.score());
    }
}

#[test]
fn random_game_from_a_late_position_is_one_of_its_outcomes() {
    let game = late_game(8);
    let all = all_outcomes(&game);
    let mut source = Random::new(late_game(8), Seed::from_string(String::from("late")));
    for _ in 0..10 {
        let g = source.solve();
        assert!(all.contains(&Transcript::stringify(&g.transcript)));
    }
}

#[test]
fn node_with_moves_tries_the_last_first() {
    let g = Game::new();
    let mut node = Node::with_moves(&g, g.valid_moves());
    let first = node.take_move().unwrap();
    assert_eq!(first.position, reversi::position::Position { x: 4, y: 5 });
    assert_eq!(node.game().transcript, g.transcript);
    assert_eq!(node.into_game().score(), (2, 2));
    let mut bare = Node::with_moves(&g, Vec::new());
    assert!(bare.is_exhausted());
    assert!(bare.take_move().is_none());
}

#[test]
fn reversed_list_of_moves() {
    let g = Game::new();
    let turned = reversi::solvers::reversed(g.valid_moves());
    let mut back = g.valid_moves();
    back.reverse();
    assert_eq!(turned, back);
    assert_eq!(reversi::solvers::reversed(Vec::new()), Vec::new());
}

#[test]
fn trim_takes_the_empty_frames_off_the_top() {
    let g = Game::new();
    let mut stack = vec![
        Node::new(&g),
        Node::with_moves(&g, Vec::new()),
        Node::new(&g),
        Node::with_moves(&g, Vec::new()),
        Node::with_moves(&g, Vec::new()),
    ];
    reversi::solvers::trim(&mut stack);
    assert_eq!(stack.len(), 3);
    assert!(!stack[2].is_exhausted());
    reversi::solvers::trim(&mut stack);
    assert_eq!(stack.len(), 3);
    let mut empty: Vec<Node> = Vec::new();
    reversi::solvers::trim(&mut empty);
    assert!(empty.is_empty());
}

#[test]
fn seed_from_a_digest_keeps_its_bytes() {
    let digest: Vec<u8> = (0u8..32).map(|b| b.wrapping_mul(7).wrapping_add(3)).collect();
    let seed = Seed::from_digest(String::from("any"), &digest);
    assert_eq!(seed.string, "any");
    assert_eq!(seed.value().to_vec(), digest);
}

#[test]
fn follow_plays_the_move_or_passes() {
    let g = Game::new();
    let moves = g.valid_moves();
    let next = Random::follow(&g, Some(&moves[2]));
    assert_eq!(Transcript::stringify(&next.transcript), "F5");
    let passed = Random::follow(&g, None);
    assert_eq!(Transcript::stringify(&passed.transcript), "PP");
}

#[test]
fn builders_order_the_moves() {
    let g = Game::new();
    let mut left = NodeBuilder::left(&g);
    assert_eq!(left.take_move().unwrap().position, reversi::position::Position { x: 3, y: 2 });
    let mut right = NodeBuilder::right(&g);
    assert_eq!(right.take_move().unwrap().position, reversi::position::Position { x: 4, y: 5 });
    let mut random = NodeBuilder::random(&g);
    let mut cells = Vec::new();
    while let Some(m) = random.take_move() {
        cells.push(m.position);
    }
    cells.sort();
    let mut all: Vec<_> = g.valid_moves().into_iter().map(|m| m.position).collect();
    all.sort();
    assert_eq!(cells, all);
}
