use vstd::prelude::*;

use crate::element::Element;
use crate::moved_molecule::MovedMolecule;
use crate::vector::{
    in_domain, norm2, sq, lemma_sq_nonneg, lemma_square_bound, scale_component, scaled, Vector3d, DOMAIN_RADIUS,
    SCALE,
};

verus! {

/// One instance of a species at a position.
#[derive(Debug, Clone, Copy, PartialEq)]
pub struct Molecule {
    pub kind: Element,
    pub position: Vector3d,
}

impl Molecule {
    /// Where one step along `direction` (of length `SCALE` for one length
    /// unit) at the species' speed would take this molecule, per axis.
    pub open spec fn candidate_x(self, direction: Vector3d) -> int {
        self.position.x + scaled(direction.x as int, self.kind.speed as int, SCALE as int)
    }

    pub open spec fn candidate_y(self, direction: Vector3d) -> int {
        self.position.y + scaled(direction.y as int, self.kind.speed as int, SCALE as int)
    }

    pub open spec fn candidate_z(self, direction: Vector3d) -> int {
        self.position.z + scaled(direction.z as int, self.kind.speed as int, SCALE as int)
    }

    /// The step is taken when its end lies inside the domain.
    pub open spec fn step_allowed(self, direction: Vector3d) -> bool {
        in_domain(
            self.candidate_x(direction),
            self.candidate_y(direction),
            self.candidate_z(direction),
        )
    }

    /// The molecule with the position it takes after one step along
    /// `direction`.
    pub open spec fn moved(self, direction: Vector3d) -> MovedMolecule {
        if self.step_allowed(direction) {
            MovedMolecule {
                molecule: self,
                next_position: Vector3d {
                    x: self.candidate_x(direction) as i32,
                    y: self.candidate_y(direction) as i32,
                    z: self.candidate_z(direction) as i32,
                },
            }
        } else {
            MovedMolecule { molecule: self, next_position: self.position }
        }
    }

    /// Moves the molecule one step along `direction` scaled by its speed; a
    /// step whose end would leave the domain is discarded and the molecule
    /// stays where it is.
    pub fn apply_movement(self, direction: Vector3d) -> (r: MovedMolecule)
        ensures
            r == self.moved(direction),
            r.molecule == self,
            self.step_allowed(direction) ==> {
                &&& r.next_position.x == self.candidate_x(direction)
                &&& r.next_position.y == self.candidate_y(direction)
                &&& r.next_position.z == self.candidate_z(direction)
            },
            !self.step_allowed(direction) ==> r.next_position == self.position,
    {
        let dx = scale_component(direction.x as i64, self.kind.speed as u64, SCALE as u64);
        let dy = scale_component(direction.y as i64, self.kind.speed as u64, SCALE as u64);
        let dz = scale_component(direction.z as i64, self.kind.speed as u64, SCALE as u64);
        let nx: i128 = self.position.x as i128 + dx;
        let ny: i128 = self.position.y as i128 + dy;
        let nz: i128 = self.position.z as i128 + dz;
        proof {
            lemma_step_square(nx as int);
            lemma_step_square(ny as int);
            lemma_step_square(nz as int);
        }
        let n2: i128 = nx * nx + ny * ny + nz * nz;
        let limit: i128 = 250_000_000_000;
        assert(limit == sq(DOMAIN_RADIUS as int));
        if n2 > limit {
            MovedMolecule { next_position: self.position, molecule: self }
        } else {
            proof {
                lemma_sq_nonneg(nx as int);
                lemma_sq_nonneg(ny as int);
                lemma_sq_nonneg(nz as int);
                lemma_square_bound(nx as int, DOMAIN_RADIUS as int);
                lemma_square_bound(ny as int, DOMAIN_RADIUS as int);
                lemma_square_bound(nz as int, DOMAIN_RADIUS as int);
            }
            MovedMolecule {
                next_position: Vector3d { x: nx as i32, y: ny as i32, z: nz as i32 },
                molecule: self,
            }
        }
    }
}

/// A step whose end lies farther from the origin than the domain radius is
/// cancelled outright: the molecule keeps its position exactly, it is not
/// moved to the boundary.
pub proof fn lemma_boundary_clamp(m: Molecule, direction: Vector3d)
    requires
        norm2(m.candidate_x(direction), m.candidate_y(direction), m.candidate_z(direction)) > sq(
            DOMAIN_RADIUS as int,
        ),
    ensures
        m.moved(direction).next_position == m.position,
        m.moved(direction).molecule == m,
{
}

proof fn lemma_step_square(c: int)
    requires
        -0x40_0000_0000_0000 <= c <= 0x40_0000_0000_0000,
    ensures
        0 <= c * c <= 0x1000_0000_0000_0000_0000_0000_0000,
{
    assert(0 <= c * c <= 0x1000_0000_0000_0000_0000_0000_0000) by (nonlinear_arith)
        requires
            -0x40_0000_0000_0000 <= c <= 0x40_0000_0000_0000,
    ;
}

} // verus!
