use vstd::prelude::*;

verus! {

/// A player at the keyboard, known by name.
pub struct HumanPlayer {
    name: String,
}

impl HumanPlayer {
    pub closed spec fn spec_name(&self) -> Seq<char> {
        self.name@
    }

    pub fn new(name: &str) -> (r: HumanPlayer)
        ensures
            r.spec_name() == name@,
    {
        HumanPlayer { name: name.to_string() }
    }

    pub fn name(&self) -> (r: &str)
        ensures
            r@ == self.spec_name(),
    {
        self.name.as_str()
    }
}

} // verus!
