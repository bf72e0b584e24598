use vstd::prelude::*;

verus! {

/// The candidates of an election, in the order of the ballot table's columns.
/// A candidate is referred to everywhere else by its index in this list.
#[derive(Debug, Clone)]
pub struct Candidates(Vec<String>);

impl View for Candidates {
    type V = Seq<String>;

    closed spec fn view(&self) -> Seq<String> {
        self.0@
    }
}

impl Candidates {
    /// Creates the registry from the names in column order.
    pub fn new(candidates: Vec<String>) -> (r: Self)
        ensures
            r@ == candidates@,
    {
        Candidates(candidates)
    }

    /// The name of the candidate with the given index, if there is one.
    pub fn get(&self, candidate: usize) -> (r: Option<&String>)
        ensures
            candidate < self@.len() ==> r == Some(&self@[candidate as int]),
            candidate >= self@.len() ==> r.is_none(),
    {
        if candidate < self.0.len() {
            Some(&self.0[candidate])
        } else {
            None
        }
    }

    /// The number of candidates.
    pub fn len(&self) -> (r: usize)
        ensures
            r == self@.len(),
    {
        self.0.len()
    }
}

} // verus!
