use reversi::game::Game;
use reversi::position::Position;
use reversi::transcript::{MalformedTranscript, Transcript, DEPTH_FIRST, MANUBU_MARUO};

#[test]
fn transcript_round_trip() {
    let transcript_source = String::from("C4E3F4G5G4G3E2C3H6C5B4F3H5B3H3A5A4F2G2B5A6H2B6H1H4E1G1B7D1H7C6A7A2F1B8D3A8F5C2B2A3D6E7C1B1C7D8A1F6D2G6F8D7G7E6C8E8PPF7PPH8G8PP");
    let transcript_vec = Transcript::from_string(&transcript_source).unwrap();

    // round trip to vector format
    assert_eq!(transcript_source, Transcript::stringify(&transcript_vec));

    // round trip to game
    let tv_to_game = Game::from_transcript(&transcript_vec);
    assert_eq!(transcript_vec, tv_to_game.transcript);
}

#[test]
fn transform_round_trip() {
    let transcript_source = String::from("C4E3F4G5G4G3E2C3H6C5B4F3H5B3H3A5A4F2G2B5A6H2B6H1H4E1G1B7D1H7C6A7A2F1B8D3A8F5C2B2A3D6E7C1B1C7D8A1F6D2G6F8D7G7E6C8E8PPF7PPH8G8PP");
    let transcript_vec = Transcript::from_string(&transcript_source).unwrap();

    // two flips should return to where we started
    let flip_one = Transcript::transform(transcript_vec.clone(), Position::flip);
    let flip_two = Transcript::transform(flip_one.clone(), Position::flip);
    assert_eq!(transcript_vec, flip_two);

    // two rotates should return to where we started
    let rotate_one = Transcript::transform(transcript_vec.clone(), Position::rotate);
    let rotate_two = Transcript::transform(rotate_one.clone(), Position::rotate);
    assert_eq!(transcript_vec, rotate_two);
}


#[test]
fn reading_a_short_text() {
    let read = Transcript::from_string("A1H8PPC4").unwrap();
    assert_eq!(
        read,
        vec![
            Transcript::Play(Position { x: 0, y: 0 }),
            Transcript::Play(Position { x: 7, y: 7 }),
            Transcript::Pass,
            Transcript::Play(Position { x: 2, y: 3 }),
        ]
    );
    assert_eq!(Transcript::from_string("").unwrap(), vec![]);
}

#[test]
fn text_round_trips() {
    for s in [MANUBU_MARUO, DEPTH_FIRST, "", "PP", "A1", "H8PPPPA8H1"] {
        let read = Transcript::from_string(s).unwrap();
        assert_eq!(Transcript::stringify(&read), s);
        assert_eq!(Transcript::from_string(&Transcript::stringify(&read)).unwrap(), read);
    }
}

#[test]
fn every_cell_round_trips() {
    for x in 0..8 {
        for y in 0..8 {
            let t = Transcript::Play(Position { x, y });
            let s = t.to_string();
            assert_eq!(s.chars().count(), 2);
            assert_eq!(Transcript::from_string(&s).unwrap(), vec![t]);
            let mut cs = s.chars();
            assert_eq!(Transcript::from_chars(cs.next().unwrap(), cs.next().unwrap()), Ok(t));
        }
    }
    assert_eq!(Transcript::Pass.to_string(), "PP");
    assert_eq!(Transcript::Play(Position { x: 4, y: 5 }).to_string(), "E6");
}

#[test]
fn malformed_texts_are_refused() {
    assert_eq!(Transcript::from_string("I1"), Err(MalformedTranscript::Column('I')));
    assert_eq!(Transcript::from_string("a1"), Err(MalformedTranscript::Column('a')));
    assert_eq!(Transcript::from_string("A9"), Err(MalformedTranscript::Row('9')));
    assert_eq!(Transcript::from_string("A0"), Err(MalformedTranscript::Row('0')));
    assert_eq!(Transcript::from_string("AA"), Err(MalformedTranscript::Row('A')));
    assert_eq!(Transcript::from_string("P9"), Err(MalformedTranscript::Column('P')));
    assert_eq!(Transcript::from_string("1A"), Err(MalformedTranscript::Column('1')));
    assert_eq!(Transcript::from_string("D3C"), Err(MalformedTranscript::Unpaired('C')));
    assert_eq!(Transcript::from_string("D"), Err(MalformedTranscript::Unpaired('D')));
    // the first fault from the left is the one reported
    assert_eq!(Transcript::from_string("D3X9A0"), Err(MalformedTranscript::Column('X')));
    assert_eq!(Transcript::from_string("D9X3Z"), Err(MalformedTranscript::Row('9')));
    assert_eq!(Transcript::from_string("D3 C3"), Err(MalformedTranscript::Column(' ')));
    assert_eq!(Transcript::from_string("D3\u{e9}3"), Err(MalformedTranscript::Column('\u{e9}')));
}

#[test]
fn single_characters() {
    assert_eq!(Transcript::char_to_x('A'), Some(0));
    assert_eq!(Transcript::char_to_x('H'), Some(7));
    assert_eq!(Transcript::char_to_x('I'), None);
    assert_eq!(Transcript::char_to_x('h'), None);
    assert_eq!(Transcript::char_to_y('1'), Some(0));
    assert_eq!(Transcript::char_to_y('8'), Some(7));
    assert_eq!(Transcript::char_to_y('0'), None);
    assert_eq!(Transcript::char_to_y('9'), None);
    assert_eq!(Transcript::x_to_char(0), 'A');
    assert_eq!(Transcript::x_to_char(3), 'D');
    assert_eq!(Transcript::x_to_char(7), 'H');
    assert_eq!(Transcript::y_to_char(0), '1');
    assert_eq!(Transcript::y_to_char(7), '8');
    assert_eq!(Transcript::from_chars('P', 'P'), Ok(Transcript::Pass));
    assert_eq!(Transcript::from_chars('C', '4'), Ok(Transcript::Play(Position { x: 2, y: 3 })));
    assert_eq!(Transcript::from(Position { x: 2, y: 3 }), Transcript::Play(Position { x: 2, y: 3 }));
    assert_eq!(Transcript::Pass.to_position(), None);
    assert_eq!(
        Transcript::Play(Position { x: 2, y: 3 }).to_position(),
        Some(Position { x: 2, y: 3 })
    );
}

#[test]
fn on_board_check() {
    assert!(Transcript::on_board(&[]));
    assert!(Transcript::on_board(&Transcript::from_string(DEPTH_FIRST).unwrap()));
    assert!(!Transcript::on_board(&[
        Transcript::Pass,
        Transcript::Play(Position { x: 0, y: 8 })
    ]));
    assert!(!Transcript::on_board(&[Transcript::Play(Position { x: 8, y: 0 })]));
}

#[test]
fn symmetrical_gives_four_games() {
    let played = Transcript::from_string("D3C3PP").unwrap();
    let all = Transcript::symmetrical(played.clone());
    assert_eq!(all.len(), 4);
    // turned by half a turn: D3 -> E6, C3 -> F6
    assert_eq!(Transcript::stringify(&all[0]), "E6F6PP");
    // mirrored in the main diagonal: D3 -> C4, C3 -> C3
    assert_eq!(Transcript::stringify(&all[1]), "C4C3PP");
    // both: E6 -> F5, F6 -> F6
    assert_eq!(Transcript::stringify(&all[2]), "F5F6PP");
    assert_eq!(all[3], played);
}

#[test]
fn symmetrical_games_are_games() {
    let moves = Transcript::from_string(DEPTH_FIRST).unwrap();
    let played = Game::from_transcript(&moves);
    let all = Transcript::symmetrical(moves);
    for t in &all {
        let g = Game::replay(t).unwrap();
        assert!(g.is_complete());
        assert_eq!(g.score(), played.score());
    }
    assert_ne!(all[0], all[1]);
    assert_ne!(all[0], all[2]);
    assert_ne!(all[0], all[3]);
    assert_ne!(all[1], all[2]);
    assert_ne!(all[1], all[3]);
    assert_ne!(all[2], all[3]);
}
