//! The record of a game, move by move, and its text form: two characters
//! for each entry, a column letter `A` to `H` and a row digit `1` to `8` for
//! a disk laid down, `PP` for a turn passed.

use vstd::prelude::*;
use vstd::std_specs::iter::IteratorSpec;
use crate::position::Position;
use crate::text::push_char;

verus! {

/// The shortest game that ends with one colour wiped out: nine moves.
pub const MANUBU_MARUO: &'static str = "E6F4E3F6G5D6E7F5C5";

/// The first game that a search in scanning order finds.
pub const DEPTH_FIRST: &'static str =
    "D3C3B3B2B1A1C4C1C2D2D1E1A2A3F5E2F1G1PPF2PPE3PPB5B4A5A4C5A6F4F3G3G2H2H1H3H4G4C6G5H5B6C7D6E6F6G6H6H7A7PPB7A8D7E7F7G7G8B8C8D8E8F8H8";

/// One entry of a transcript.
#[derive(Clone, Copy, Debug, PartialEq, Eq, Structural)]
pub enum Transcript {
    /// A disk laid on the given cell.
    Play(Position),
    /// A turn passed for want of a legal move.
    Pass,
}

/// Why a text is not a transcript.
#[derive(Clone, Copy, Debug, PartialEq, Eq, Structural)]
pub enum MalformedTranscript {
    /// The first character of an entry is neither a column letter nor the
    /// start of `PP`.
    Column(char),
    /// The second character of an entry is not a row digit.
    Row(char),
    /// The text ends in the middle of an entry, with this character.
    Unpaired(char),
}

/// The column that a letter names.
pub open spec fn column_of(c: char) -> Option<usize> {
    if c == 'A' {
        Some(0usize)
    } else if c == 'B' {
        Some(1usize)
    } else if c == 'C' {
        Some(2usize)
    } else if c == 'D' {
        Some(3usize)
    } else if c == 'E' {
        Some(4usize)
    } else if c == 'F' {
        Some(5usize)
    } else if c == 'G' {
        Some(6usize)
    } else if c == 'H' {
        Some(7usize)
    } else {
        None
    }
}

/// The row that a digit names.
pub open spec fn row_of(c: char) -> Option<usize> {
    if c == '1' {
        Some(0usize)
    } else if c == '2' {
        Some(1usize)
    } else if c == '3' {
        Some(2usize)
    } else if c == '4' {
        Some(3usize)
    } else if c == '5' {
        Some(4usize)
    } else if c == '6' {
        Some(5usize)
    } else if c == '7' {
        Some(6usize)
    } else if c == '8' {
        Some(7usize)
    } else {
        None
    }
}

/// The letter of a column.
pub open spec fn column_letter(x: usize) -> char {
    if x == 0 {
        'A'
    } else if x == 1 {
        'B'
    } else if x == 2 {
        'C'
    } else if x == 3 {
        'D'
    } else if x == 4 {
        'E'
    } else if x == 5 {
        'F'
    } else if x == 6 {
        'G'
    } else {
        'H'
    }
}

/// The digit of a row.
pub open spec fn row_digit(y: usize) -> char {
    if y == 0 {
        '1'
    } else if y == 1 {
        '2'
    } else if y == 2 {
        '3'
    } else if y == 3 {
        '4'
    } else if y == 4 {
        '5'
    } else if y == 5 {
        '6'
    } else if y == 6 {
        '7'
    } else {
        '8'
    }
}

/// The entry that two characters spell, or what is wrong with them.
pub open spec fn token(a: char, b: char) -> Result<Transcript, MalformedTranscript> {
    if a == 'P' && b == 'P' {
        Ok(Transcript::Pass)
    } else {
        match column_of(a) {
            None => Err(MalformedTranscript::Column(a)),
            Some(x) => match row_of(b) {
                None => Err(MalformedTranscript::Row(b)),
                Some(y) => Ok(Transcript::Play(Position { x, y })),
            },
        }
    }
}

/// The two characters that spell an entry.
pub open spec fn token_text(t: Transcript) -> Seq<char> {
    match t {
        Transcript::Pass => seq!['P', 'P'],
        Transcript::Play(p) => seq![column_letter(p.x), row_digit(p.y)],
    }
}

/// Whether a text is a transcript: a whole number of entries, each of them
/// spelled correctly.
pub open spec fn well_formed(s: Seq<char>) -> bool {
    &&& s.len() % 2 == 0
    &&& forall|k: int| 0 <= k < s.len() / 2 ==> (#[trigger] token(s[2 * k], s[2 * k + 1])) is Ok
}

/// The entries that a text spells. Meaningful where the text is well formed.
pub open spec fn entries(s: Seq<char>) -> Seq<Transcript> {
    Seq::new((s.len() / 2) as nat, |k: int| token(s[2 * k], s[2 * k + 1])->Ok_0)
}

/// What is wrong with the first of the first `n` entries of a text that is
/// misspelled, if any is.
pub open spec fn fault_upto(s: Seq<char>, n: int) -> Option<MalformedTranscript>
    decreases n,
{
    if n <= 0 {
        None
    } else {
        match fault_upto(s, n - 1) {
            Some(e) => Some(e),
            None => match token(s[2 * n - 2], s[2 * n - 1]) {
                Ok(_) => None,
                Err(e) => Some(e),
            },
        }
    }
}

/// What is wrong with a text, read from the left: its first misspelled
/// entry, or else the character left over at its end.
pub open spec fn fault(s: Seq<char>) -> Option<MalformedTranscript> {
    match fault_upto(s, s.len() as int / 2) {
        Some(e) => Some(e),
        None => if s.len() % 2 == 1 {
            Some(MalformedTranscript::Unpaired(s.last()))
        } else {
            None
        },
    }
}

/// The text form of a transcript.
pub open spec fn text(entries: Seq<Transcript>) -> Seq<char>
    decreases entries.len(),
{
    if entries.len() == 0 {
        Seq::empty()
    } else {
        text(entries.drop_last()) + token_text(entries.last())
    }
}

/// Whether every cell that a transcript names lies on the board.
pub open spec fn on_board_entries(entries: Seq<Transcript>) -> bool {
    forall|i: int|
        0 <= i < entries.len() ==> ((#[trigger] entries[i]) matches Transcript::Play(p)
            ==> p.valid())
}

/// The transcript with `f` applied to each cell that it names.
pub open spec fn transformed(
    entries: Seq<Transcript>,
    f: spec_fn(Position) -> Position,
) -> Seq<Transcript> {
    entries.map_values(
        |t: Transcript|
            match t {
                Transcript::Pass => Transcript::Pass,
                Transcript::Play(p) => Transcript::Play(f(p)),
            },
    )
}

/// The transcript of the game seen after half a turn of the board.
pub open spec fn rotated(entries: Seq<Transcript>) -> Seq<Transcript> {
    transformed(entries, |p: Position| p.spec_rotate())
}

/// The transcript of the game seen in a mirror along the main diagonal.
pub open spec fn flipped(entries: Seq<Transcript>) -> Seq<Transcript> {
    transformed(entries, |p: Position| p.spec_flip())
}


impl Transcript {
    /// Reads a transcript from its text form. A text that is not well formed
    /// is refused, with the fault that a reader meets first.
    pub fn from_string(source: &str) -> (parsed: Result<Vec<Self>, MalformedTranscript>)
        ensures
            well_formed(source@) <==> parsed is Ok,
            parsed matches Ok(v) ==> v@ == entries(source@),
            parsed matches Err(e) ==> fault(source@) == Some(e),
    {
        let mut output: Vec<Transcript> = Vec::new();
        let mut chars = source.chars();
        let ghost s = source@;
        let ghost mut n: int = 0;
        proof {
            lemma_fault_iff_malformed(s);
        }
        loop
            invariant
                s == source@,
                0 <= n,
                2 * n <= s.len(),
                chars.remaining() == s.skip(2 * n),
                output@.len() == n,
                forall|k: int| 0 <= k < n ==> (#[trigger] token(s[2 * k], s[2 * k + 1])) is Ok,
                forall|k: int|
                    0 <= k < n ==> (#[trigger] output@[k]) == token(s[2 * k], s[2 * k + 1])->Ok_0,
                fault_upto(s, n) is None,
                fault(s) is None <==> well_formed(s),
            decreases s.len() - 2 * n,
        {
            let raw_x = match chars.next() {
                None => {
                    proof {
                        assert(s.len() == 2 * n);
                        assert(output@ =~= entries(s));
                    }
                    return Ok(output);
                },
                Some(c) => c,
            };
            assert(raw_x == s[2 * n]);
            match chars.next() {
                None => {
                    proof {
                        assert(s.len() == 2 * n + 1);
                    }
                    return Err(MalformedTranscript::Unpaired(raw_x));
                },
                Some(raw_y) => {
                    assert(raw_y == s[2 * n + 1]);
                    assert(chars.remaining() =~= s.skip(2 * (n + 1)));
                    match Transcript::from_chars(raw_x, raw_y) {
                        Ok(t) => {
                            output.push(t);
                            proof {
                                n = n + 1;
                                assert(fault_upto(s, n) is None);
                            }
                        },
                        Err(e) => {
                            proof {
                                assert(fault_upto(s, n + 1) == Some(e));
                                lemma_fault_stays(s, n + 1, s.len() as int / 2);
                            }
                            return Err(e);
                        },
                    }
                },
            }
        }
    }

    /// The entry that two characters spell.
    pub fn from_chars(raw_x: char, raw_y: char) -> (parsed: Result<Self, MalformedTranscript>)
        ensures
            parsed == token(raw_x, raw_y),
    {
        if raw_x == 'P' && raw_y == 'P' {
            return Ok(Transcript::Pass);
        }
        let x = match Transcript::char_to_x(raw_x) {
            None => {
                return Err(MalformedTranscript::Column(raw_x));
            },
            Some(x) => x,
        };
        let y = match Transcript::char_to_y(raw_y) {
            None => {
                return Err(MalformedTranscript::Row(raw_y));
            },
            Some(y) => y,
        };
        Ok(Transcript::Play(Position { x, y }))
    }

    /// The text form of a transcript.
    pub fn stringify(transcripts: &[Transcript]) -> (out: String)
        requires
            on_board_entries(transcripts@),
        ensures
            out@ == text(transcripts@),
    {
        let mut output = String::new();
        let mut i: usize = 0;
        while i < transcripts.len()
            invariant
                i <= transcripts.len(),
                on_board_entries(transcripts@),
                output@ == text(transcripts@.take(i as int)),
            decreases transcripts.len() - i,
        {
            let t = &transcripts[i];
            assert(transcripts@.take(i + 1).drop_last() =~= transcripts@.take(i as int));
            assert(transcripts@.take(i + 1).last() == transcripts@[i as int]);
            match t {
                Transcript::Play(p) => {
                    push_char(&mut output, Transcript::x_to_char(p.x));
                    push_char(&mut output, Transcript::y_to_char(p.y));
                    assert(output@ =~= text(transcripts@.take(i as int)) + token_text(*t));
                },
                Transcript::Pass => {
                    push_char(&mut output, 'P');
                    push_char(&mut output, 'P');
                    assert(output@ =~= text(transcripts@.take(i as int)) + token_text(*t));
                },
            }
            i += 1;
        }
        assert(transcripts@.take(i as int) =~= transcripts@);
        output
    }

    /// The text of this one entry.
    pub fn to_string(&self) -> (out: String)
        requires
            self matches Transcript::Play(p) ==> p.valid(),
        ensures
            out@ == token_text(*self),
    {
        let mut output = String::new();
        match self {
            Transcript::Play(p) => {
                push_char(&mut output, Transcript::x_to_char(p.x));
                push_char(&mut output, Transcript::y_to_char(p.y));
            },
            Transcript::Pass => {
                push_char(&mut output, 'P');
                push_char(&mut output, 'P');
            },
        }
        assert(output@ =~= token_text(*self));
        output
    }

    /// Whether every cell that the transcript names lies on the board.
    pub fn on_board(transcripts: &[Transcript]) -> (all: bool)
        ensures
            all == on_board_entries(transcripts@),
    {
        let mut i: usize = 0;
        while i < transcripts.len()
            invariant
                i <= transcripts.len(),
                on_board_entries(transcripts@.take(i as int)),
            decreases transcripts.len() - i,
        {
            match transcripts[i] {
                Transcript::Pass => {},
                Transcript::Play(p) => {
                    if p.x > 7 || p.y > 7 {
                        assert(!on_board_entries(transcripts@)) by {
                            assert(transcripts@[i as int] == Transcript::Play(p));
                        }
                        return false;
                    }
                },
            }
            assert forall|k: int| 0 <= k < i + 1 implies ((#[trigger] transcripts@.take(
                i + 1,
            )[k]) matches Transcript::Play(p) ==> p.valid()) by {
                if k < i {
                    assert(transcripts@.take(i as int)[k] == transcripts@.take(i + 1)[k]);
                }
            }
            i += 1;
        }
        assert(transcripts@.take(i as int) =~= transcripts@);
        true
    }

    /// The cell on which this entry lays a disk, if it lays one.
    pub fn to_position(&self) -> (cell: Option<Position>)
        ensures
            cell == match *self {
                Transcript::Play(p) => Some(p),
                Transcript::Pass => None::<Position>,
            },
    {
        match self {
            Transcript::Play(p) => Some(*p),
            Transcript::Pass => None,
        }
    }

    /// The transcript of a finished game together with those of the three
    /// games that mirror it: turned by half a turn, mirrored in the main
    /// diagonal, and both; the game itself comes last. Where the transcript
    /// is that of a finished game, so are the other three, and the four
    /// differ (see [`lemma_mirror_images`](crate::symmetry::lemma_mirror_images)
    /// and [`lemma_mirror_images_differ`](crate::opening::lemma_mirror_images_differ)).
    pub fn symmetrical(played: Vec<Transcript>) -> (all: Vec<Vec<Transcript>>)
        requires
            on_board_entries(played@),
        ensures
            all@.len() == 4,
            all@[0]@ == rotated(played@),
            all@[1]@ == flipped(played@),
            all@[2]@ == flipped(rotated(played@)),
            all@[3]@ == played@,
    {
        proof {
            lemma_symmetry_on_board(played@);
        }
        // first position is rotated.
        let first = Transcript::transform(played.clone(), Position::rotate);
        assert(first@ =~= rotated(played@));
        // second position is flipped.
        let second = Transcript::transform(played.clone(), Position::flip);
        assert(second@ =~= flipped(played@));
        // third position is rotated and flipped.
        let third = Transcript::transform(first.clone(), Position::flip);
        assert(third@ =~= flipped(rotated(played@)));
        let mut all: Vec<Vec<Transcript>> = Vec::new();
        all.push(first);
        all.push(second);
        all.push(third);
        all.push(played);
        all
    }

    /// The transcript with `f` applied to each cell that it names; passes
    /// stay passes.
    pub fn transform<F: Fn(Position) -> Position>(transcripts: Vec<Transcript>, f: F) -> (out:
        Vec<Self>)
        requires
            forall|i: int|
                0 <= i < transcripts@.len() ==> ((#[trigger] transcripts@[i])
                    matches Transcript::Play(p) ==> call_requires(f, (p,))),
        ensures
            out@.len() == transcripts@.len(),
            forall|i: int|
                0 <= i < out@.len() ==> match transcripts@[i] {
                    Transcript::Pass => (#[trigger] out@[i]) == Transcript::Pass,
                    Transcript::Play(p) => out@[i] matches Transcript::Play(q) && call_ensures(
                        f,
                        (p,),
                        q,
                    ),
                },
    {
        let mut output: Vec<Transcript> = Vec::new();
        let mut i: usize = 0;
        while i < transcripts.len()
            invariant
                i <= transcripts.len(),
                output@.len() == i,
                forall|i: int|
                    0 <= i < transcripts@.len() ==> ((#[trigger] transcripts@[i])
                        matches Transcript::Play(p) ==> call_requires(f, (p,))),
                forall|k: int|
                    0 <= k < i ==> match transcripts@[k] {
                        Transcript::Pass => (#[trigger] output@[k]) == Transcript::Pass,
                        Transcript::Play(p) => output@[k] matches Transcript::Play(q)
                            && call_ensures(f, (p,), q),
                    },
            decreases transcripts.len() - i,
        {
            let new_t = match transcripts[i] {
                Transcript::Pass => Transcript::Pass,
                Transcript::Play(p) => Transcript::Play(f(p)),
            };
            output.push(new_t);
            i += 1;
        }
        output
    }

    /// The column that a letter names, if it names one.
    pub fn char_to_x(c: char) -> (x: Option<usize>)
        ensures
            x == column_of(c),
    {
        match c {
            'A' => Some(0),
            'B' => Some(1),
            'C' => Some(2),
            'D' => Some(3),
            'E' => Some(4),
            'F' => Some(5),
            'G' => Some(6),
            'H' => Some(7),
            _ => None,
        }
    }

    /// The row that a digit names, if it names one.
    pub fn char_to_y(c: char) -> (y: Option<usize>)
        ensures
            y == row_of(c),
    {
        match c {
            '1' => Some(0),
            '2' => Some(1),
            '3' => Some(2),
            '4' => Some(3),
            '5' => Some(4),
            '6' => Some(5),
            '7' => Some(6),
            '8' => Some(7),
            _ => None,
        }
    }

    /// The letter of a column.
    pub fn x_to_char(x: usize) -> (c: char)
        requires
            x <= 7,
        ensures
            c == column_letter(x),
    {
        match x {
            0 => 'A',
            1 => 'B',
            2 => 'C',
            3 => 'D',
            4 => 'E',
            5 => 'F',
            6 => 'G',
            _ => 'H',
        }
    }

    /// The digit of a row.
    pub fn y_to_char(y: usize) -> (c: char)
        requires
            y <= 7,
        ensures
            c == row_digit(y),
    {
        match y {
            0 => '1',
            1 => '2',
            2 => '3',
            3 => '4',
            4 => '5',
            5 => '6',
            6 => '7',
            _ => '8',
        }
    }
}

impl vstd::std_specs::convert::FromSpecImpl<Position> for Transcript {
    open spec fn obeys_from_spec() -> bool {
        true
    }

    open spec fn from_spec(p: Position) -> Transcript {
        Transcript::Play(p)
    }
}

impl From<Position> for Transcript {
    /// The entry that records a disk laid on `p`.
    fn from(p: Position) -> (entry: Self)
        ensures
            entry == Transcript::Play(p),
    {
        Transcript::Play(p)
    }
}

/// A fault among the first `n` entries of a text is the fault of any longer
/// part of it.
pub proof fn lemma_fault_stays(s: Seq<char>, n: int, m: int)
    requires
        n <= m,
        fault_upto(s, n) is Some,
    ensures
        fault_upto(s, m) == fault_upto(s, n),
    decreases m - n,
{
    if n < m {
        lemma_fault_stays(s, n, m - 1);
    }
}

/// A text has no fault exactly if it is well formed.
pub proof fn lemma_fault_iff_malformed(s: Seq<char>)
    ensures
        fault(s) is None <==> well_formed(s),
{
    lemma_fault_upto(s, s.len() as int / 2);
}

/// The first `n` entries of a text have no fault exactly if each of them is
/// spelled correctly.
pub proof fn lemma_fault_upto(s: Seq<char>, n: int)
    ensures
        fault_upto(s, n) is None <==> forall|k: int|
            0 <= k < n ==> (#[trigger] token(s[2 * k], s[2 * k + 1])) is Ok,
    decreases n,
{
    if n > 0 {
        lemma_fault_upto(s, n - 1);
        if fault_upto(s, n) is None {
            assert forall|k: int| 0 <= k < n implies (#[trigger] token(
                s[2 * k],
                s[2 * k + 1],
            )) is Ok by {
                if k == n - 1 {
                    assert(token(s[2 * n - 2], s[2 * n - 1]) is Ok);
                }
            }
        } else if fault_upto(s, n - 1) is None {
            assert(!(token(s[2 * (n - 1)], s[2 * (n - 1) + 1]) is Ok));
        }
    }
}

/// Two characters that spell an entry are the text of that entry.
pub proof fn lemma_token_round_trip(a: char, b: char)
    requires
        token(a, b) is Ok,
    ensures
        token_text(token(a, b)->Ok_0) == seq![a, b],
{
}

/// The text of an entry on the board spells that entry.
pub proof fn lemma_token_text_round_trip(t: Transcript)
    requires
        t matches Transcript::Play(p) ==> p.valid(),
    ensures
        token(token_text(t)[0], token_text(t)[1]) == Ok::<Transcript, MalformedTranscript>(t),
        token_text(t).len() == 2,
{
}

/// The text of a transcript has two characters for each entry.
pub proof fn lemma_text_len(ts: Seq<Transcript>)
    ensures
        text(ts).len() == 2 * ts.len(),
    decreases ts.len(),
{
    if ts.len() > 0 {
        lemma_text_len(ts.drop_last());
    }
}

/// Reading a well-formed text and writing the entries out again gives the
/// text back, character for character.
pub proof fn lemma_text_of_entries(s: Seq<char>)
    requires
        well_formed(s),
    ensures
        text(entries(s)) == s,
    decreases s.len(),
{
    if s.len() == 0 {
        assert(entries(s) =~= Seq::<Transcript>::empty());
        assert(text(entries(s)) =~= s);
    } else {
        let n = s.len() as int / 2;
        let head = s.take(s.len() - 2);
        assert(head.len() / 2 == n - 1);
        assert forall|k: int| 0 <= k < head.len() / 2 implies (#[trigger] token(
            head[2 * k],
            head[2 * k + 1],
        )) is Ok by {
            assert(token(s[2 * k], s[2 * k + 1]) is Ok);
        }
        lemma_text_of_entries(head);
        assert(entries(s).drop_last() =~= entries(head));
        assert(token(s[2 * (n - 1)], s[2 * (n - 1) + 1]) is Ok);
        lemma_token_round_trip(s[2 * n - 2], s[2 * n - 1]);
        assert(entries(s).last() == token(s[2 * n - 2], s[2 * n - 1])->Ok_0);
        assert(head + seq![s[2 * n - 2], s[2 * n - 1]] =~= s);
    }
}

/// Writing a transcript out and reading the text gives the transcript back:
/// the text is well formed, and spells the same entries.
pub proof fn lemma_entries_of_text(ts: Seq<Transcript>)
    requires
        on_board_entries(ts),
    ensures
        well_formed(text(ts)),
        entries(text(ts)) == ts,
    decreases ts.len(),
{
    lemma_text_len(ts);
    if ts.len() == 0 {
        assert(entries(text(ts)) =~= ts);
    } else {
        let head = ts.drop_last();
        lemma_entries_of_text(head);
        lemma_text_len(head);
        lemma_token_text_round_trip(ts.last());
        let s = text(ts);
        let h = text(head);
        assert(s == h + token_text(ts.last()));
        assert forall|k: int| 0 <= k < s.len() / 2 implies (#[trigger] token(
            s[2 * k],
            s[2 * k + 1],
        )) is Ok && token(s[2 * k], s[2 * k + 1])->Ok_0 == ts[k] by {
            if k < head.len() {
                assert(s[2 * k] == h[2 * k]);
                assert(s[2 * k + 1] == h[2 * k + 1]);
                assert(token(h[2 * k], h[2 * k + 1]) is Ok);
                assert(entries(h)[k] == head[k]);
            } else {
                assert(s[2 * k] == token_text(ts.last())[0]);
                assert(s[2 * k + 1] == token_text(ts.last())[1]);
            }
        }
        assert(entries(s) =~= ts);
    }
}

/// Mirroring a transcript twice gives the transcript back.
pub proof fn lemma_flip_twice(ts: Seq<Transcript>)
    ensures
        flipped(flipped(ts)) == ts,
{
    assert(flipped(flipped(ts)) =~= ts);
}

/// Turning a transcript on the board by half a turn twice gives the
/// transcript back.
pub proof fn lemma_rotate_twice(ts: Seq<Transcript>)
    requires
        on_board_entries(ts),
    ensures
        rotated(rotated(ts)) == ts,
{
    assert forall|i: int| 0 <= i < ts.len() implies rotated(rotated(ts))[i] == ts[i] by {
        match ts[i] {
            Transcript::Pass => {},
            Transcript::Play(p) => {
                assert(p.valid());
                assert(p.spec_rotate().spec_rotate() == p);
            },
        }
    }
    assert(rotated(rotated(ts)) =~= ts);
}

/// Mirroring and turning keep a transcript on the board.
pub proof fn lemma_symmetry_on_board(ts: Seq<Transcript>)
    requires
        on_board_entries(ts),
    ensures
        on_board_entries(rotated(ts)),
        on_board_entries(flipped(ts)),
{
    assert forall|i: int| 0 <= i < ts.len() implies ((#[trigger] rotated(ts)[i])
        matches Transcript::Play(p) ==> p.valid()) by {
        assert(ts[i] matches Transcript::Play(p) ==> p.valid());
    }
    assert forall|i: int| 0 <= i < ts.len() implies ((#[trigger] flipped(ts)[i])
        matches Transcript::Play(p) ==> p.valid()) by {
        assert(ts[i] matches Transcript::Play(p) ==> p.valid());
    }
}

} // verus!
