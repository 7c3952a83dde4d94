use vstd::prelude::*;

verus! {

/// The key of a table that holds at most one row.
#[derive(Clone, Copy, PartialEq, Eq, Structural, Debug, Default, Hash, PartialOrd, Ord)]
pub enum Singleton {
    #[default]
    Singleton,
}

impl Singleton {
    /// The text by which the key is displayed.
    pub fn display_name(&self) -> (s: String)
        ensures
            s@ == "Singleton"@,
    {
        String::from_str("Singleton")
    }
}

} // verus!
