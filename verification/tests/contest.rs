use reversi::collector::{Action, Collector, Counter, Printer, PRINT_COUNT};
use reversi::contest::{Contest, Player};
use reversi::disk::Disk;
use reversi::game::Game;
use reversi::transcript::{Transcript, DEPTH_FIRST};

#[test]
fn contest_of_first_movers_ends_as_the_first_outcome() {
    let mut contest = Contest::new(Game::new(), Player::new(), Player::new());
    contest.play();
    assert!(contest.game.is_complete());
    assert_eq!(Transcript::stringify(&contest.game.transcript), DEPTH_FIRST);
}

#[test]
fn contest_of_a_finished_game_changes_nothing() {
    let done = Game::from_transcript(&Transcript::from_string(DEPTH_FIRST).unwrap());
    let mut contest = Contest::new(done.clone(), Player::new(), Player::new());
    contest.play();
    assert_eq!(contest.game.transcript, done.transcript);
}

#[test]
fn player_makes_the_first_move_or_passes() {
    let mut player = Player::new();
    assert_eq!(player.disk, Disk::Dark);
    let next = player.play(Game::new());
    assert_eq!(Transcript::stringify(&next.transcript), "D3");
    assert_eq!(player.disk, Disk::Dark);
    let stuck = Game::from_transcript(
        &Transcript::from_string("D3C3B3B2B1A1C4C1C2D2D1E1A2A3F5E2F1G1").unwrap(),
    );
    let next = player.clone().play(stuck);
    assert_eq!(*next.transcript.last().unwrap(), Transcript::Pass);
}

#[test]
fn printer_gives_the_text() {
    let mut printer = Printer::new();
    let t = Transcript::from_string("D3C3PP").unwrap();
    match printer.receive(&t) {
        Action::Print(line) => assert_eq!(line, "D3C3PP"),
        _ => panic!("a printer prints"),
    }
    match printer.receive(&[]) {
        Action::Print(line) => assert_eq!(line, ""),
        _ => panic!("a printer prints"),
    }
}

#[test]
fn counter_reports_every_millionth_game() {
    assert_eq!(PRINT_COUNT, 1_000_000);
    let t = Transcript::from_string("D3C3").unwrap();
    let mut counter = Counter::new();
    for _ in 0..(PRINT_COUNT - 1) {
        assert!(matches!(counter.receive(&t), Action::Silent));
    }
    match counter.receive(&t) {
        Action::Report { games, sample } => {
            assert_eq!(games, 1_000_000);
            assert_eq!(sample, "D3C3");
        }
        _ => panic!("the millionth game is reported"),
    }
    assert!(matches!(counter.receive(&t), Action::Silent));
}
