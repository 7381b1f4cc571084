//! Process ink sets: which inks are sprayed, in what order, in what colour.

use vstd::prelude::*;

verus! {

/// Which set of process inks to separate into.
#[derive(Clone, Copy, Debug, PartialEq, Eq, Structural)]
pub enum Inks {
    Cmyk,
    /// Extended gamut: CMYK plus orange and green.
    Cmykog,
}

/// One ink of a set.
#[derive(Clone, Copy, Debug, PartialEq, Eq, Structural)]
pub enum Ink {
    Cyan,
    Magenta,
    Yellow,
    Orange,
    Green,
    Black,
}

impl Ink {
    /// The name under which the ink is shown.
    pub open spec fn name_spec(self) -> Seq<char> {
        match self {
            Ink::Cyan => "Cyan"@,
            Ink::Magenta => "Magenta"@,
            Ink::Yellow => "Yellow"@,
            Ink::Orange => "Orange"@,
            Ink::Green => "Green"@,
            Ink::Black => "Black"@,
        }
    }

    /// The letter that marks the ink's file.
    pub open spec fn suffix_spec(self) -> Seq<char> {
        match self {
            Ink::Cyan => "c"@,
            Ink::Magenta => "m"@,
            Ink::Yellow => "y"@,
            Ink::Orange => "o"@,
            Ink::Green => "g"@,
            Ink::Black => "k"@,
        }
    }

    /// The ink's transmission colour, in tenths for red, green and blue.
    pub open spec fn rgb_spec(self) -> [u8; 3] {
        match self {
            Ink::Cyan => [0u8, 10u8, 10u8],
            Ink::Magenta => [10u8, 0u8, 10u8],
            Ink::Yellow => [10u8, 10u8, 0u8],
            Ink::Orange => [10u8, 5u8, 0u8],
            Ink::Green => [0u8, 7u8, 3u8],
            Ink::Black => [0u8, 0u8, 0u8],
        }
    }

    /// The name under which the ink is shown.
    pub fn name(self) -> (r: &'static str)
        ensures
            r@ == self.name_spec(),
    {
        match self {
            Ink::Cyan => "Cyan",
            Ink::Magenta => "Magenta",
            Ink::Yellow => "Yellow",
            Ink::Orange => "Orange",
            Ink::Green => "Green",
            Ink::Black => "Black",
        }
    }

    /// The letter that marks the ink's file.
    pub fn suffix(self) -> (r: &'static str)
        ensures
            r@ == self.suffix_spec(),
    {
        match self {
            Ink::Cyan => "c",
            Ink::Magenta => "m",
            Ink::Yellow => "y",
            Ink::Orange => "o",
            Ink::Green => "g",
            Ink::Black => "k",
        }
    }

    /// The ink's transmission colour, in tenths for red, green and blue.
    pub fn rgb_tenths(self) -> (r: [u8; 3])
        ensures
            r == self.rgb_spec(),
    {
        match self {
            Ink::Cyan => [0, 10, 10],
            Ink::Magenta => [10, 0, 10],
            Ink::Yellow => [10, 10, 0],
            Ink::Orange => [10, 5, 0],
            Ink::Green => [0, 7, 3],
            Ink::Black => [0, 0, 0],
        }
    }

    /// Whether the ink is opaque, and so goes through the taming path.
    pub fn tamed(self) -> (r: bool)
        ensures
            r == (self is Black),
    {
        matches!(self, Ink::Black)
    }
}

impl Inks {
    /// The inks of the set in spray order.
    pub open spec fn inks(self) -> Seq<Ink> {
        match self {
            Inks::Cmyk => seq![Ink::Cyan, Ink::Magenta, Ink::Yellow, Ink::Black],
            Inks::Cmykog => seq![
                Ink::Cyan,
                Ink::Magenta,
                Ink::Yellow,
                Ink::Orange,
                Ink::Green,
                Ink::Black,
            ],
        }
    }

    /// The inks of the set in spray order.
    pub fn specs(self) -> (r: Vec<Ink>)
        ensures
            r@ == self.inks(),
    {
        match self {
            Inks::Cmyk => vec![Ink::Cyan, Ink::Magenta, Ink::Yellow, Ink::Black],
            Inks::Cmykog => vec![
                Ink::Cyan,
                Ink::Magenta,
                Ink::Yellow,
                Ink::Orange,
                Ink::Green,
                Ink::Black,
            ],
        }
    }

    /// The screen angles, in degrees, that a set starts out with.
    pub open spec fn angles(self) -> Seq<u32> {
        match self {
            Inks::Cmyk => seq![15u32, 75, 0, 45],
            Inks::Cmykog => seq![15u32, 75, 0, 30, 60, 45],
        }
    }

    /// The screen angles, in degrees, that a set starts out with: C15, M75, Y0, K45, and
    /// spread angles for orange and green.
    pub fn default_angles(self) -> (r: Vec<u32>)
        ensures
            r@ == self.angles(),
            r@.len() == self.inks().len(),
    {
        match self {
            Inks::Cmyk => vec![15u32, 75, 0, 45],
            Inks::Cmykog => vec![15u32, 75, 0, 30, 60, 45],
        }
    }

    /// The loads that a set starts out with: one for each ink.
    pub fn default_loads(self) -> (r: Vec<u32>)
        ensures
            r@.len() == self.inks().len(),
            forall|i: int| 0 <= i < r@.len() ==> #[trigger] r@[i] == 1,
    {
        match self {
            Inks::Cmyk => vec![1u32, 1, 1, 1],
            Inks::Cmykog => vec![1u32, 1, 1, 1, 1, 1],
        }
    }

    /// How many inks the set has.
    pub fn count(self) -> (r: usize)
        ensures
            r == self.inks().len(),
    {
        self.specs().len()
    }

    /// The names of the inks, in spray order.
    pub fn names(self) -> (r: Vec<&'static str>)
        ensures
            r@.len() == self.inks().len(),
            forall|i: int| 0 <= i < r@.len() ==> (#[trigger] r@[i])@ == self.inks()[i].name_spec(),
    {
        let inks: Vec<Ink> = self.specs();
        let mut names: Vec<&'static str> = Vec::new();
        for i in 0..inks.len()
            invariant
                inks@ == self.inks(),
                names@.len() == i,
                forall|j: int|
                    0 <= j < i ==> (#[trigger] names@[j])@ == self.inks()[j].name_spec(),
        {
            names.push(inks[i].name());
        }
        names
    }
}

} // verus!
