use vstd::prelude::*;

verus! {

/// Which debug dumps a run asks for: the final stack, the parsed tokens.
pub struct Flags {
    pub stack: bool,
    pub tokens: bool,
}

impl Flags {
    pub fn new() -> (r: Self)
        ensures
            !r.stack,
            !r.tokens,
    {
        Self { stack: false, tokens: false }
    }
}

} // verus!
