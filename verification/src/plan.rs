//! Extraction plans: which bytes of a container go to which output file.
use vstd::prelude::*;

verus! {

/// One output file cut from a container: `size` bytes starting at `offset`.
pub struct Extraction {
    pub name: String,
    pub offset: u64,
    pub size: u64,
}

impl View for Extraction {
    type V = (Seq<char>, u64, u64);

    open spec fn view(&self) -> (Seq<char>, u64, u64) {
        (self.name@, self.offset, self.size)
    }
}

/// Planned outputs as plain values.
pub open spec fn plan_view(v: Seq<Extraction>) -> Seq<(Seq<char>, u64, u64)> {
    v.map_values(|e: Extraction| e@)
}

} // verus!
