use reversi::analyzer::{moves_for, MoveIterator, ValidMove};
use reversi::direction::Direction;
use reversi::disk::Disk;
use reversi::game::Game;
use reversi::grid::{Grid, GridIterator, State};
use reversi::internal_position::InternalPosition;
use reversi::position::Position;
use reversi::position_state::PositionState;
use reversi::text::decimal;
use reversi::transcript_position::TranscriptPosition;

fn opening_grid() -> Grid {
    let mut grid = Grid::new();
    grid.set(3, 3, State::Light);
    grid.set(4, 3, State::Dark);
    grid.set(3, 4, State::Dark);
    grid.set(4, 4, State::Light);
    grid
}

#[test]
fn grid_get_set_flip() {
    let mut grid = Grid::new();
    assert_eq!(grid.turn, Disk::Dark);
    let mut cells = grid.iter();
    let mut seen = 0;
    while let Some(p) = cells.next() {
        assert_eq!(grid.get(p.x, p.y), State::Empty);
        seen += 1;
    }
    assert_eq!(seen, 64);
    assert_eq!(cells.next(), None);

    grid.set(2, 5, State::Dark);
    assert_eq!(grid.get(2, 5), State::Dark);
    assert_eq!(grid.get(5, 2), State::Empty);
    assert_eq!(grid.flip(2, 5), State::Light);
    assert_eq!(grid.get(2, 5), State::Light);
    assert_eq!(grid.flip(2, 5), State::Dark);
    assert_eq!(grid.flip(0, 0), State::Empty);
    assert_eq!(grid.get(0, 0), State::Empty);
    assert_eq!(grid.clone(), grid);
}

#[test]
fn grid_iterator_runs_row_by_row() {
    let grid = opening_grid();
    let mut cells = GridIterator::new(&grid);
    assert_eq!(cells.next(), Some(Position { x: 0, y: 0 }));
    assert_eq!(cells.next(), Some(Position { x: 1, y: 0 }));
    for _ in 2..8 {
        cells.next();
    }
    assert_eq!(cells.next(), Some(Position { x: 0, y: 1 }));
    assert_eq!(cells.grid, grid);
    assert_eq!(*cells.grid(), grid);
}

#[test]
fn moves_on_the_opening_grid() {
    let grid = opening_grid();
    let mut moves = grid.moves();
    let mut found: Vec<ValidMove> = Vec::new();
    while let Some(m) = moves.next() {
        found.push(m);
    }
    assert!(moves.next().is_none());
    assert_eq!(found, Game::new().valid_moves());
    assert_eq!(found.len(), 4);

    // light to move
    let mut light = opening_grid();
    light.turn = Disk::Light;
    let mut moves = light.moves();
    let first = moves.next().unwrap();
    assert_eq!(first.position, Position { x: 4, y: 2 });
    assert_eq!(first.affected, vec![Position { x: 4, y: 3 }]);
}

#[test]
fn move_iterator_goes_on_from_where_the_cells_are() {
    let grid = opening_grid();
    let mut cells = GridIterator::new(&grid);
    // past D3 and C4, before F5
    for _ in 0..30 {
        cells.next();
    }
    let mut moves = MoveIterator::new(cells);
    assert_eq!(moves.next().unwrap().position, Position { x: 5, y: 4 });
    assert_eq!(moves.next().unwrap().position, Position { x: 4, y: 5 });
    assert!(moves.next().is_none());
}

#[test]
fn moves_for_one_cell() {
    let grid = opening_grid();
    let d3 = Position { x: 3, y: 2 };
    let found = moves_for(&grid, &d3, &Disk::Dark).unwrap();
    assert_eq!(found.position, d3);
    assert_eq!(found.affected, vec![Position { x: 3, y: 3 }]);
    assert_eq!(moves_for(&grid, &d3, &Disk::Light), None);
    assert_eq!(moves_for(&grid, &Position { x: 3, y: 3 }, &Disk::Dark), None);
    assert_eq!(moves_for(&grid, &Position { x: 0, y: 0 }, &Disk::Dark), None);
    assert_eq!(moves_for(&Grid::new(), &d3, &Disk::Dark), None);
}

#[test]
fn a_line_must_end_on_an_own_disk() {
    // a row of light disks that runs to the edge cannot be taken
    let mut grid = Grid::new();
    for x in 1..8 {
        grid.set(x, 0, State::Light);
    }
    assert_eq!(moves_for(&grid, &Position { x: 0, y: 0 }, &Disk::Dark), None);
    // closed by a dark disk, the whole row turns over
    grid.set(7, 0, State::Dark);
    let found = moves_for(&grid, &Position { x: 0, y: 0 }, &Disk::Dark).unwrap();
    let row: Vec<Position> = (1..7).map(|x| Position { x, y: 0 }).collect();
    assert_eq!(found.affected, row);
    // a gap in the line breaks it
    grid.set(3, 0, State::Empty);
    assert_eq!(moves_for(&grid, &Position { x: 0, y: 0 }, &Disk::Dark), None);
}

#[test]
fn disks_are_collected_clockwise_from_north() {
    // dark disks all around, light disks between them and the centre
    let mut grid = Grid::new();
    let centre = Position { x: 3, y: 3 };
    let mut expected = Vec::new();
    for i in 0..8 {
        let d = Direction::nth(i);
        let near = centre.neighbor(&d).unwrap();
        let far = near.neighbor(&d).unwrap();
        grid.set(near.x, near.y, State::Light);
        grid.set(far.x, far.y, State::Dark);
        expected.push(near);
    }
    let found = moves_for(&grid, &centre, &Disk::Dark).unwrap();
    assert_eq!(found.affected, expected);
    assert_eq!(found.affected[0], Position { x: 3, y: 2 });
    assert_eq!(found.affected[2], Position { x: 4, y: 3 });
}

#[test]
fn state_is_the_state_of_a_position() {
    assert_eq!(State::Dark, PositionState::Dark);
    assert_eq!(PositionState::default(), PositionState::Empty);
    assert_eq!(PositionState::opposite(PositionState::Dark), PositionState::Light);
    assert_eq!(State::from(Disk::Light), State::Light);
    assert_eq!(State::Light.opposite(), State::Dark);
}

#[test]
fn internal_position_steps() {
    let p = InternalPosition { x: 0, y: 7 };
    assert_eq!(p.direction(&Direction::North), Some(InternalPosition { x: 0, y: 6 }));
    assert_eq!(p.direction(&Direction::East), Some(InternalPosition { x: 1, y: 7 }));
    assert_eq!(p.direction(&Direction::South), None);
    assert_eq!(p.direction(&Direction::West), None);
    assert_eq!(p.direction(&Direction::NorthEast), Some(InternalPosition { x: 1, y: 6 }));
    assert_eq!(p.direction(&Direction::NorthWest), None);
    assert_eq!(p.direction(&Direction::SouthEast), None);
    assert_eq!(p.direction(&Direction::SouthWest), None);
}

#[test]
fn names_of_cells() {
    let a1 = TranscriptPosition::from_internal(InternalPosition { x: 0, y: 0 });
    assert_eq!(a1, TranscriptPosition { x: 'A', y: 1 });
    assert_eq!(a1.format(), "A1");
    let h8 = TranscriptPosition::from_internal(InternalPosition { x: 7, y: 7 });
    assert_eq!(h8, TranscriptPosition { x: 'H', y: 8 });
    assert_eq!(h8.format(), "H8");
    assert_eq!(
        InternalPosition::from_transcript(TranscriptPosition { x: 'C', y: 4 }),
        InternalPosition { x: 2, y: 3 }
    );
    for x in 0..8 {
        for y in 0..8 {
            let i = InternalPosition { x, y };
            assert_eq!(InternalPosition::from_transcript(TranscriptPosition::from_internal(i)), i);
        }
    }
    // whatever the number, it is written out in full
    assert_eq!(TranscriptPosition { x: 'Z', y: 120 }.format(), "Z120");
    assert_eq!(TranscriptPosition { x: 'a', y: 0 }.format(), "a0");
}

#[test]
fn decimal_numbers() {
    assert_eq!(decimal(0), "0");
    assert_eq!(decimal(7), "7");
    assert_eq!(decimal(10), "10");
    assert_eq!(decimal(1_000_000), "1000000");
    assert_eq!(decimal(9_876_543_210), "9876543210");
    assert_eq!(decimal(usize::MAX), usize::MAX.to_string());
}
