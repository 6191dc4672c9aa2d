use vstd::prelude::*;

verus! {

/// A whole-number percentage, always between 0 and 100.
#[derive(Clone, Copy, Debug, PartialEq, Eq, Structural)]
pub struct Percentage(u32);

impl View for Percentage {
    type V = nat;

    closed spec fn view(&self) -> nat {
        self.0 as nat
    }
}

impl Percentage {
    #[verifier::type_invariant]
    spec fn at_most_hundred(self) -> bool {
        self.0 <= 100
    }

    /// Makes a percentage of `percentage`; values above 100 are refused.
    pub fn new(percentage: u32) -> (r: Option<Self>)
        ensures
            r is None <==> percentage > 100,
            r matches Some(p) ==> p@ == percentage,
    {
        if percentage > 100 {
            None
        } else {
            Some(Percentage(percentage))
        }
    }

    /// The percentage as a number.
    pub fn value(&self) -> (r: u32)
        ensures
            r == self@,
            r <= 100,
    {
        proof {
            use_type_invariant(self);
        }
        self.0
    }
}

} // verus!
