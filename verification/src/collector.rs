//! What the one consumer of a parallel search does with each transcript
//! that reaches it. The consumer itself, with its channel and its output,
//! lies outside this library: it hands each transcript to a collector and
//! carries out what the collector answers.

use vstd::prelude::*;
use crate::transcript::{on_board_entries, text, Transcript};

verus! {

/// After how many games a counter reports.
pub const PRINT_COUNT: usize = 1_000_000;

/// What a consumer is to do after a transcript has reached it.
pub enum Action {
    /// Nothing.
    Silent,
    /// Print the line.
    Print(String),
    /// Report that so many games have been seen, and show the text of the
    /// last of them.
    Report { games: usize, sample: String },
}

/// What decides, transcript by transcript, what a consumer does.
pub trait Collector {
    /// Takes note of a transcript and says what is to be done about it.
    fn receive(&mut self, transcript: &[Transcript]) -> (action: Action)
        requires
            on_board_entries(transcript@),
    ;
}

/// A collector that has every transcript printed.
pub struct Printer {}

impl Printer {
    /// A printer.
    pub fn new() -> (printer: Self) {
        Printer {  }
    }
}

impl Collector for Printer {
    /// Has the text of the transcript printed.
    fn receive(&mut self, transcript: &[Transcript]) -> (action: Action)
        ensures
            action matches Action::Print(line) && line@ == text(transcript@),
    {
        Action::Print(Transcript::stringify(transcript))
    }
}

/// A collector that counts the transcripts and reports once in every
/// `PRINT_COUNT` of them.
pub struct Counter {
    count: usize,
}

impl Counter {
    /// How many transcripts have been counted.
    pub closed spec fn games(self) -> nat {
        self.count as nat
    }

    /// A counter that has seen nothing.
    pub fn new() -> (counter: Self)
        ensures
            counter.games() == 0,
    {
        Counter { count: 0 }
    }
}

impl Collector for Counter {
    /// Counts one more transcript. Where the count has reached a multiple of
    /// `PRINT_COUNT`, the answer is a report with the count and the text of
    /// this transcript; otherwise there is nothing to do. A count that has
    /// reached the largest number stays there.
    fn receive(&mut self, transcript: &[Transcript]) -> (action: Action)
        ensures
            final(self).games() == if old(self).games() < usize::MAX {
                old(self).games() + 1
            } else {
                old(self).games()
            },
            final(self).games() % (PRINT_COUNT as nat) != 0 ==> action is Silent,
            final(self).games() % (PRINT_COUNT as nat) == 0 ==> (action matches Action::Report {
                games,
                sample,
            } && games == final(self).games() && sample@ == text(transcript@)),
    {
        if self.count < usize::MAX {
            self.count += 1;
        }
        if self.count % PRINT_COUNT == 0 {
            Action::Report { games: self.count, sample: Transcript::stringify(transcript) }
        } else {
            Action::Silent
        }
    }
}

} // verus!
