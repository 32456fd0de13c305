use vstd::prelude::*;

use crate::molecule::Molecule;
use crate::moved_molecule::MovedMolecule;
use crate::reaction_registry::CollidedElements;
use crate::vector::Vector3d;

verus! {

/// The outcome of a pairwise test: a molecule without a partner, or an
/// overlapping pair in the order in which it was tested.
#[derive(Debug, Clone, Copy)]
pub enum CollidedMolecules {
    Mono(MovedMolecule),
    Bi(MovedMolecule, MovedMolecule),
}

impl CollidedMolecules {
    /// Where products appear: the molecule's next position, or the midpoint
    /// of the pair's next positions.
    pub open spec fn contact(self) -> Vector3d {
        match self {
            CollidedMolecules::Mono(m) => m.next_position,
            CollidedMolecules::Bi(m1, m2) => m1.next_position.mid(m2.next_position),
        }
    }

    pub open spec fn elements(self) -> CollidedElements {
        match self {
            CollidedMolecules::Mono(m) => CollidedElements::Mono(m.molecule.kind),
            CollidedMolecules::Bi(m1, m2) => CollidedElements::Bi(
                m1.molecule.kind,
                m2.molecule.kind,
            ),
        }
    }

    /// What stays when no reaction happens: a lone molecule keeps its step, a
    /// pair goes back to where both stood before the step.
    pub open spec fn rolled_back(self) -> Seq<Molecule> {
        match self {
            CollidedMolecules::Mono(m) => seq![
                Molecule { kind: m.molecule.kind, position: m.next_position },
            ],
            CollidedMolecules::Bi(m1, m2) => seq![m1.molecule, m2.molecule],
        }
    }

    pub fn get_position(&self) -> (r: Vector3d)
        ensures
            r == self.contact(),
    {
        match self {
            CollidedMolecules::Mono(m) => m.next_position,
            CollidedMolecules::Bi(m1, m2) => m1.next_position.midpoint(&m2.next_position),
        }
    }

    pub fn get_elements(&self) -> (r: CollidedElements)
        ensures
            r == self.elements(),
    {
        match self {
            CollidedMolecules::Mono(m) => CollidedElements::Mono(m.molecule.kind),
            CollidedMolecules::Bi(m1, m2) => CollidedElements::Bi(
                m1.molecule.kind,
                m2.molecule.kind,
            ),
        }
    }

    pub fn roll_back(self) -> (r: Vec<Molecule>)
        ensures
            r@ == self.rolled_back(),
    {
        match self {
            CollidedMolecules::Mono(m) => {
                let mut mol = m.molecule;
                mol.position = m.next_position;
                vec![mol]
            },
            CollidedMolecules::Bi(m1, m2) => { vec![m1.molecule, m2.molecule] },
        }
    }
}

} // verus!
