use reversi::disk::Disk;
use reversi::game::Game;
use reversi::position::Position;
use reversi::transcript::{Transcript, DEPTH_FIRST, MANUBU_MARUO};
use reversi::game::InvalidReplay;
use reversi::position::PositionState;

#[test]
fn validate_positions() {
    let g = Game::new();

    // yes, we have opening moves
    assert_eq!(g.is_complete(), false);

    // three spots that are invalid for either player, an empty spot and two occupied spots of different colors
    let invalid_moves = vec![
        Position { x: 0, y: 0 },
        Position { x: 3, y: 3 },
        Position { x: 3, y: 4 },
    ];
    for m in invalid_moves {
        let mut result = Game::validate_move(g.board(), &m, Disk::Dark);
        assert_eq!(result, None);
        result = Game::validate_move(g.board(), &m, Disk::Light);
        assert_eq!(result, None);
    }

    // check a spot that's valid for one color, but not the other
    let p = Position { x: 3, y: 2 }; // good for dark, not light
    let mut result = Game::validate_move(g.board(), &p, Disk::Dark);
    assert!(result.is_some());
    result = Game::validate_move(g.board(), &p, Disk::Light);
    assert!(result.is_none());
}

#[test]
fn vmi_finds_all_moves() {
    let g = Game::new();

    assert_eq!(g.valid_moves().len(), 4);
}

#[test]
fn completion() {
    let mut g = Game::new();
    assert_eq!(g.is_complete(), false);

    g = Game::from_transcript(&Transcript::from_string(MANUBU_MARUO).unwrap());
    assert_eq!(g.is_complete(), true);
}

#[test]
fn score() {
    let mut g = Game::new();
    let (dark_score, light_score) = g.score();
    assert_eq!(dark_score, light_score);
    assert_eq!(dark_score, 2);

    g = Game::from_transcript(&Transcript::from_string(MANUBU_MARUO).unwrap());
    let (dark_score, light_score) = g.score();
    assert_eq!(dark_score, 13);
    assert_eq!(light_score, 0);
}

#[test]
fn mem_size() {
    let g = Game::from_transcript(&Transcript::from_string(DEPTH_FIRST).unwrap());
    println!("Game mem size: {}", std::mem::size_of_val(&g));
}

fn replayed(text: &str) -> Game {
    Game::from_transcript(&Transcript::from_string(text).unwrap())
}

#[test]
fn opening_position() {
    let g = Game::new();
    assert_eq!(g.turn(), Disk::Dark);
    assert!(g.transcript.is_empty());
    assert_eq!(g.board().get(3, 3), PositionState::Light);
    assert_eq!(g.board().get(4, 3), PositionState::Dark);
    assert_eq!(g.board().get(3, 4), PositionState::Dark);
    assert_eq!(g.board().get(4, 4), PositionState::Light);
    let mut others = 0;
    let mut cells = g.board().iter();
    while let Some(p) = cells.next() {
        if g.board().get(p.x, p.y) == PositionState::Empty {
            others += 1;
        }
    }
    assert_eq!(others, 60);
}

#[test]
fn opening_moves_in_scanning_order() {
    let g = Game::new();
    let moves = g.valid_moves();
    let cells: Vec<Position> = moves.iter().map(|m| m.position).collect();
    assert_eq!(
        cells,
        vec![
            Position { x: 3, y: 2 },
            Position { x: 2, y: 3 },
            Position { x: 5, y: 4 },
            Position { x: 4, y: 5 },
        ]
    );
    assert_eq!(moves[0].affected, vec![Position { x: 3, y: 3 }]);
    assert_eq!(moves[1].affected, vec![Position { x: 3, y: 3 }]);
    assert_eq!(moves[2].affected, vec![Position { x: 4, y: 4 }]);
    assert_eq!(moves[3].affected, vec![Position { x: 4, y: 4 }]);
}

#[test]
fn legal_moves_lie_on_free_cells_and_turn_something_over() {
    let mut g = Game::new();
    for _ in 0..40 {
        let moves = g.valid_moves();
        for m in &moves {
            assert_eq!(g.board().get(m.position.x, m.position.y), PositionState::Empty);
            assert!(!m.affected.is_empty());
            for a in &m.affected {
                assert_eq!(
                    g.board().get(a.x, a.y),
                    PositionState::from(g.turn().opposite())
                );
            }
            assert_eq!(
                Game::validate_move(g.board(), &m.position, g.turn()),
                Some(m.clone())
            );
        }
        g = match moves.into_iter().last() {
            Some(m) => g.play(m),
            None => g.pass(),
        };
    }
}

#[test]
fn move_iterator_agrees_with_the_list() {
    let g = replayed("D3C3B3");
    let listed = g.valid_moves();
    let mut iter = g.move_iter();
    let mut found = Vec::new();
    while let Some(m) = iter.next() {
        found.push(m);
    }
    assert_eq!(found, listed);
    assert!(iter.next().is_none());
}

#[test]
fn play_lays_a_disk_and_turns_the_rest() {
    let g = Game::new();
    let m = Game::validate_move(g.board(), &Position { x: 3, y: 2 }, Disk::Dark).unwrap();
    let next = g.play(m);
    assert_eq!(next.turn(), Disk::Light);
    assert_eq!(next.transcript, vec![Transcript::Play(Position { x: 3, y: 2 })]);
    assert_eq!(next.board().get(3, 2), PositionState::Dark);
    assert_eq!(next.board().get(3, 3), PositionState::Dark);
    assert_eq!(next.board().get(3, 4), PositionState::Dark);
    assert_eq!(next.board().get(4, 3), PositionState::Dark);
    assert_eq!(next.board().get(4, 4), PositionState::Light);
    assert_eq!(next.score(), (4, 1));
    // the game played from stays as it was
    assert_eq!(g.score(), (2, 2));
    assert!(g.transcript.is_empty());
    assert_eq!(g.turn(), Disk::Dark);
}

#[test]
fn a_move_turns_over_what_lies_between() {
    // after D3 C5, dark on E6 takes the light disk on E5
    let g = replayed("D3C5");
    let m = Game::validate_move(g.board(), &Position { x: 4, y: 5 }, Disk::Dark).unwrap();
    assert_eq!(m.affected, vec![Position { x: 4, y: 4 }]);
    // after D3 C3 C4 E3, dark on F2 takes the light disk on E3, on the
    // diagonal that runs down to the dark disk on D4
    let g = replayed("D3C3C4E3");
    let m = Game::validate_move(g.board(), &Position { x: 5, y: 1 }, Disk::Dark).unwrap();
    assert_eq!(m.affected, vec![Position { x: 4, y: 2 }]);
}

#[test]
fn pass_changes_the_turn_only() {
    let g = Game::new();
    let next = g.pass();
    assert_eq!(next.turn(), Disk::Light);
    assert_eq!(next.transcript, vec![Transcript::Pass]);
    assert_eq!(next.board(), g.board());
    assert_eq!(next.score(), (2, 2));
}

#[test]
fn nine_move_game_ends_with_thirteen_dark_disks() {
    let moves = Transcript::from_string(MANUBU_MARUO).unwrap();
    assert_eq!(moves.len(), 9);
    let g = Game::from_transcript(&moves);
    assert!(g.is_complete());
    assert_eq!(g.valid_moves().len(), 0);
    assert_eq!(g.pass().valid_moves().len(), 0);
    assert_eq!(g.score(), (13, 0));
    assert_eq!(g.transcript.len(), 9);
    // one move earlier it is not over
    let before = Game::from_transcript(&moves[..8]);
    assert!(!before.is_complete());
}

#[test]
fn complete_means_no_move_for_either_side() {
    let mut g = Game::new();
    let all = Transcript::from_string(DEPTH_FIRST).unwrap();
    for t in &all {
        let mine = g.valid_moves().len();
        let theirs = g.pass().valid_moves().len();
        assert_eq!(g.is_complete(), mine == 0 && theirs == 0);
        g = match t.to_position() {
            None => {
                // a pass in a transcript is a forced one
                assert_eq!(mine, 0);
                assert!(theirs > 0);
                g.pass()
            }
            Some(p) => g.play(Game::validate_move(g.board(), &p, g.turn()).unwrap()),
        };
    }
    assert!(g.is_complete());
    assert_eq!(g.valid_moves().len(), 0);
    assert_eq!(g.pass().valid_moves().len(), 0);
}

#[test]
fn a_side_without_moves_does_not_end_the_game() {
    // dark to move has nothing, light has
    let g = replayed("D3C3B3B2B1A1C4C1C2D2D1E1A2A3F5E2F1G1");
    assert_eq!(g.turn(), Disk::Dark);
    assert_eq!(g.valid_moves().len(), 0);
    assert!(!g.is_complete());
    assert!(g.pass().valid_moves().len() > 0);
}

#[test]
fn replay_reports_the_first_illegal_move() {
    // A1 is no legal opening move
    let bad = Transcript::from_string("D3A1C4").unwrap();
    let e = Game::replay(&bad).unwrap_err();
    assert_eq!(e, InvalidReplay { ply: 1, position: Position { x: 0, y: 0 } });
    // an occupied cell
    let bad = Transcript::from_string("D4").unwrap();
    let e = Game::replay(&bad).unwrap_err();
    assert_eq!(e, InvalidReplay { ply: 0, position: Position { x: 3, y: 3 } });
    // a cell off the board
    let off = vec![Transcript::Play(Position { x: 8, y: 0 })];
    let e = Game::replay(&off).unwrap_err();
    assert_eq!(e, InvalidReplay { ply: 0, position: Position { x: 8, y: 0 } });
    // a good one
    let good = Transcript::from_string("D3C3").unwrap();
    let g = Game::replay(&good).unwrap();
    assert_eq!(g.transcript, good);
    assert_eq!(g.turn(), Disk::Dark);
    // nothing at all
    let g = Game::replay(&[]).unwrap();
    assert!(g.transcript.is_empty());
    assert_eq!(g.score(), (2, 2));
}

#[test]
fn end_turn_hands_over() {
    let g = Game::end_turn(Game::new());
    assert_eq!(g.turn(), Disk::Light);
    assert!(g.transcript.is_empty());
    assert_eq!(g.score(), (2, 2));
}

#[test]
fn clone_of_a_game() {
    let g = replayed("D3C3B3");
    let h = g.clone();
    assert_eq!(g.transcript, h.transcript);
    assert_eq!(g.turn(), h.turn());
    assert_eq!(g.board(), h.board());
}

#[test]
fn next_turn_in_words() {
    assert_eq!(Game::new().next_turn(), "Dark");
    assert_eq!(replayed("D3").next_turn(), "Light");
    assert_eq!(replayed(MANUBU_MARUO).next_turn(), "Complete");
}
