use vstd::prelude::*;

verus! {

/// A species: its identity, interaction radius and diffusion speed, the two
/// latter in fixed-point position units. Two elements are the same species
/// exactly when their identities agree.
#[derive(Debug, Clone, Copy)]
pub struct Element {
    pub uuid: u64,
    pub radius: u32,
    pub speed: u32,
}

impl PartialEq for Element {
    fn eq(&self, other: &Element) -> (r: bool)
        ensures
            r == (self.uuid == other.uuid),
    {
        self.uuid == other.uuid
    }
}

impl vstd::std_specs::cmp::PartialEqSpecImpl for Element {
    open spec fn obeys_eq_spec() -> bool {
        true
    }

    open spec fn eq_spec(&self, other: &Element) -> bool {
        self.uuid == other.uuid
    }
}

impl Eq for Element {

}

} // verus!
