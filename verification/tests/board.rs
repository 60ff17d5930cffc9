use reversi::board::Board;
use reversi::position::{Position, PositionIter, PositionState};
use reversi::direction::Direction;
use reversi::disk::{Disk, DiskIter};

#[test]
fn get_set_flip() {
    let mut b = Board::empty();

    // check to see if the board is completely empty
    let mut cells = b.iter();
    let mut seen = 0;
    while let Some(p) = cells.next() {
        assert_eq!(b.get(p.x, p.y), PositionState::Empty);
        seen += 1;
    }
    assert_eq!(seen, 64);

    // check to see if we can set a particular position
    b.set(0, 0, PositionState::Dark);
    assert_eq!(b.get(0, 0), PositionState::Dark);

    // check to see if we can flip the colors back and forth
    b.flip(0, 0);
    assert_eq!(b.get(0, 0), PositionState::Light);
    b.flip(0, 0);
    assert_eq!(b.get(0, 0), PositionState::Dark);

    // check to see if flipping Empty keeps it as Empty
    b.flip(0, 1);
    assert_eq!(b.get(0, 1), PositionState::Empty);
}

#[test]
fn position_iterator() {
    let mut p = PositionIter::new();
    assert_eq!(p.next(), Some(Position { x: 0, y: 0 }));
    assert_eq!(p.last(), Some(Position { x: 7, y: 7 }));

    p = PositionIter::new();
    assert_eq!(p.nth(63), Some(Position { x: 7, y: 7 }));
    assert_eq!(p.next(), None);
    assert_eq!(p.nth(200), None);
}

#[test]
fn position_iterator_runs_row_by_row() {
    let mut p = PositionIter::new();
    assert_eq!(p.next(), Some(Position { x: 0, y: 0 }));
    assert_eq!(p.next(), Some(Position { x: 1, y: 0 }));
    assert_eq!(p.nth(5), Some(Position { x: 7, y: 0 }));
    assert_eq!(p.next(), Some(Position { x: 0, y: 1 }));
    let mut seen = 9;
    while let Some(_) = p.next() {
        seen += 1;
    }
    assert_eq!(seen, 64);
    assert_eq!(p.last(), None);
}

#[test]
fn nth_past_the_end_uses_the_iterator_up() {
    let mut p = PositionIter::new();
    assert_eq!(p.nth(64), None);
    assert_eq!(p.next(), None);
    let mut q = PositionIter::new();
    assert_eq!(q.nth(usize::MAX), None);
    assert_eq!(q.next(), None);
}

#[test]
fn neighbors_stop_at_the_edge() {
    let corner = Position { x: 0, y: 0 };
    assert_eq!(corner.neighbor(&Direction::North), None);
    assert_eq!(corner.neighbor(&Direction::NorthEast), None);
    assert_eq!(corner.neighbor(&Direction::West), None);
    assert_eq!(corner.neighbor(&Direction::NorthWest), None);
    assert_eq!(corner.neighbor(&Direction::SouthWest), None);
    assert_eq!(corner.neighbor(&Direction::East), Some(Position { x: 1, y: 0 }));
    assert_eq!(corner.neighbor(&Direction::South), Some(Position { x: 0, y: 1 }));
    assert_eq!(corner.neighbor(&Direction::SouthEast), Some(Position { x: 1, y: 1 }));
    let far = Position { x: 7, y: 7 };
    assert_eq!(far.neighbor(&Direction::South), None);
    assert_eq!(far.neighbor(&Direction::East), None);
    assert_eq!(far.neighbor(&Direction::SouthEast), None);
    assert_eq!(far.neighbor(&Direction::NorthWest), Some(Position { x: 6, y: 6 }));
    let mid = Position { x: 3, y: 4 };
    assert_eq!(mid.neighbor(&Direction::North), Some(Position { x: 3, y: 3 }));
    assert_eq!(mid.neighbor(&Direction::NorthEast), Some(Position { x: 4, y: 3 }));
    assert_eq!(mid.neighbor(&Direction::SouthWest), Some(Position { x: 2, y: 5 }));
    assert_eq!(mid.neighbor(&Direction::West), Some(Position { x: 2, y: 4 }));
}

#[test]
fn directions_run_clockwise_from_north() {
    assert_eq!(Direction::nth(0), Direction::North);
    assert_eq!(Direction::nth(1), Direction::NorthEast);
    assert_eq!(Direction::nth(2), Direction::East);
    assert_eq!(Direction::nth(3), Direction::SouthEast);
    assert_eq!(Direction::nth(4), Direction::South);
    assert_eq!(Direction::nth(5), Direction::SouthWest);
    assert_eq!(Direction::nth(6), Direction::West);
    assert_eq!(Direction::nth(7), Direction::NorthWest);
}

#[test]
fn rotate_and_flip_of_a_cell() {
    let p = Position { x: 2, y: 5 };
    assert_eq!(p.rotate(), Position { x: 5, y: 2 });
    assert_eq!(p.rotate().flip(), Position { x: 2, y: 5 });
    assert_eq!(p.flip().rotate(), Position { x: 2, y: 5 });
    assert_eq!(p.flip(), Position { x: 5, y: 2 });
    assert_eq!(Position { x: 0, y: 7 }.flip(), Position { x: 7, y: 0 });
    assert_eq!(Position { x: 0, y: 7 }.rotate(), Position { x: 7, y: 0 });
    assert_eq!(Position { x: 1, y: 3 }.rotate().rotate(), Position { x: 1, y: 3 });
    assert_eq!(Position { x: 1, y: 3 }.flip().flip(), Position { x: 1, y: 3 });
}

#[test]
fn state_of_a_disk_and_its_opposite() {
    assert_eq!(PositionState::from(Disk::Dark), PositionState::Dark);
    assert_eq!(PositionState::from(Disk::Light), PositionState::Light);
    assert_eq!(PositionState::Dark.opposite(), PositionState::Light);
    assert_eq!(PositionState::Light.opposite(), PositionState::Dark);
    assert_eq!(PositionState::Empty.opposite(), PositionState::Empty);
    assert_eq!(Disk::Dark.opposite(), Disk::Light);
    assert_eq!(Disk::Light.opposite(), Disk::Dark);
    assert_eq!(Disk::Dark.to_string(), "Dark");
    assert_eq!(Disk::Light.to_string(), "Light");
}

#[test]
fn disk_iterator_hands_out_both_colours() {
    let mut d = DiskIter::new();
    assert_eq!(d.next(), Some(Disk::Dark));
    assert_eq!(d.next(), Some(Disk::Light));
    assert_eq!(d.next(), None);
    assert_eq!(d.next(), None);
}

#[test]
fn rotated_board() {
    let mut b = Board::empty();
    b.set(0, 0, PositionState::Dark);
    b.set(2, 5, PositionState::Light);
    let r = b.to_rotated();
    assert_eq!(r.get(7, 7), PositionState::Dark);
    assert_eq!(r.get(5, 2), PositionState::Light);
    assert_eq!(r.get(0, 0), PositionState::Empty);
    assert_eq!(r.get(2, 5), PositionState::Empty);
    assert_eq!(r.to_rotated(), b);
}

#[test]
fn picture_of_a_board() {
    let mut b = Board::empty();
    b.set(0, 0, PositionState::Dark);
    b.set(7, 0, PositionState::Light);
    b.set(1, 7, PositionState::Light);
    let e = " \u{e2}\u{20ac}\u{a2}";
    let mut expected = String::from("  a b c d e f g h");
    expected.push_str(&format!("\n1 D{}{}{}{}{}{} L", e, e, e, e, e, e));
    for y in 2..8 {
        expected.push_str(&format!("\n{}{}{}{}{}{}{}{}{}", y, e, e, e, e, e, e, e, e));
    }
    expected.push_str(&format!("\n8{} L{}{}{}{}{}{}", e, e, e, e, e, e, e));
    expected.push_str("\n");
    assert_eq!(b.to_string(), expected);
}
