//! The two players' colours.

use vstd::prelude::*;

verus! {

/// One of the two colours a disk shows.
#[derive(Clone, Copy, Debug, PartialEq, Eq, Hash, Structural)]
pub enum Disk {
    Dark,
    Light,
}

impl Disk {
    /// The other colour.
    pub open spec fn spec_opposite(self) -> Disk {
        match self {
            Disk::Dark => Disk::Light,
            Disk::Light => Disk::Dark,
        }
    }

    /// The name of the colour as a text.
    pub open spec fn name(self) -> Seq<char> {
        match self {
            Disk::Dark => "Dark"@,
            Disk::Light => "Light"@,
        }
    }

    /// The name of the colour.
    pub fn to_string(&self) -> (name: String)
        ensures
            name@ == self.name(),
    {
        match self {
            Disk::Dark => String::from_str("Dark"),
            Disk::Light => String::from_str("Light"),
        }
    }

    /// The colour of the other player.
    #[verifier::when_used_as_spec(spec_opposite)]
    pub fn opposite(self) -> (other: Self)
        ensures
            other == self.spec_opposite(),
    {
        match self {
            Disk::Dark => Disk::Light,
            Disk::Light => Disk::Dark,
        }
    }
}

/// Hands out the two colours: dark first, then light.
pub struct DiskIter {
    index: usize,
}

impl DiskIter {
    #[verifier::type_invariant]
    spec fn bounded(self) -> bool {
        self.index <= 2
    }

    /// How many colours have been handed out.
    pub closed spec fn done(self) -> nat {
        self.index as nat
    }

    /// An iterator that has handed out nothing yet.
    pub fn new() -> (iter: Self)
        ensures
            iter.done() == 0,
    {
        Self { index: 0 }
    }

    /// The next colour: dark, then light, then nothing more.
    pub fn next(&mut self) -> (item: Option<Disk>)
        ensures
            old(self).done() <= 2,
            old(self).done() == 0 ==> item == Some(Disk::Dark) && final(self).done() == 1,
            old(self).done() == 1 ==> item == Some(Disk::Light) && final(self).done() == 2,
            old(self).done() == 2 ==> item is None && final(self).done() == 2,
    {
        proof {
            use_type_invariant(&*self);
        }
        if self.index == 0 {
            self.index = 1;
            Some(Disk::Dark)
        } else if self.index == 1 {
            self.index = 2;
            Some(Disk::Light)
        } else {
            None
        }
    }
}

} // verus!
