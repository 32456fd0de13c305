use vstd::prelude::*;

use crate::collided_molecule::CollidedMolecules;
use crate::molecule::Molecule;
use crate::reaction_registry::ReactionRegistry;
use crate::vector::{sq, Vector3d};

verus! {

/// A molecule with the position it would take after this step's motion.
#[derive(Debug, Clone, Copy, PartialEq)]
pub struct MovedMolecule {
    pub molecule: Molecule,
    pub next_position: Vector3d,
}

/// Two moved molecules overlap when the squared distance between their next
/// positions is at most the square of the sum of their radii.
pub open spec fn collides(a: MovedMolecule, b: MovedMolecule) -> bool {
    a.next_position.dist2(b.next_position) <= sq(
        a.molecule.kind.radius + b.molecule.kind.radius,
    )
}

/// The roll of the trial between primary `i` and partner `j`; `j == i` for
/// the lone trial of `i`.
pub open spec fn roll_at(rolls: Seq<Seq<u64>>, i: int, j: int) -> u64 {
    rolls[i][j]
}

/// The rolls a table of rows holds.
pub open spec fn table_view(t: Vec<Vec<u64>>) -> Seq<Seq<u64>> {
    t@.map_values(|row: Vec<u64>| row@)
}

/// One roll per pair of indices of a bucket of `n` molecules.
pub open spec fn roll_table_fits(rolls: Seq<Seq<u64>>, n: int) -> bool {
    &&& rolls.len() == n
    &&& forall|i: int| 0 <= i < n ==> #[trigger] rolls[i].len() == n
}

/// Partners `j..n` of primary `i`, tested in order. Consumed partners and
/// partners that do not overlap are passed over; an overlapping pair is
/// tried; a pair whose trial fails has both steps cancelled and the scan
/// goes on. Gives the bucket afterwards and, if a trial fired, the partner
/// and the products.
pub open spec fn scan_partners(
    reg: ReactionRegistry,
    rolls: Seq<Seq<u64>>,
    n: int,
    i: int,
    j: int,
    cur: Seq<MovedMolecule>,
    consumed: Seq<bool>,
) -> (Seq<MovedMolecule>, Option<(int, Seq<Molecule>)>)
    decreases n - j,
{
    if j < 0 || j >= n || i < 0 || i >= n {
        (cur, None)
    } else if consumed[j] || !collides(cur[i], cur[j]) {
        scan_partners(reg, rolls, n, i, j + 1, cur, consumed)
    } else {
        let d = reg.decision(CollidedMolecules::Bi(cur[i], cur[j]), roll_at(rolls, i, j));
        if d.1 {
            (cur, Some((j, d.0)))
        } else {
            scan_partners(
                reg,
                rolls,
                n,
                i,
                j + 1,
                cur.update(i, cur[i].stayed()).update(j, cur[j].stayed()),
                consumed,
            )
        }
    }
}

/// Resolution of primary `i`: the first later partner whose trial fires
/// takes part in the reaction; without one, the lone trial of `i` decides.
/// Gives the bucket afterwards, the molecules that result and the partner.
pub open spec fn resolve_primary(
    reg: ReactionRegistry,
    rolls: Seq<Seq<u64>>,
    n: int,
    i: int,
    cur: Seq<MovedMolecule>,
    consumed: Seq<bool>,
) -> (Seq<MovedMolecule>, Seq<Molecule>, Option<int>) {
    let (after, found) = scan_partners(reg, rolls, n, i, i + 1, cur, consumed);
    match found {
        Some((j, products)) => (after, products, Some(j)),
        None => (
            after,
            reg.decision(CollidedMolecules::Mono(after[i]), roll_at(rolls, i, i)).0,
            None,
        ),
    }
}

pub open spec fn index_opt(o: Option<usize>) -> Option<int> {
    match o {
        Some(j) => Some(j as int),
        None => None,
    }
}

impl MovedMolecule {
    /// The same molecule with its step cancelled.
    pub open spec fn stayed(self) -> MovedMolecule {
        MovedMolecule { molecule: self.molecule, next_position: self.molecule.position }
    }

    pub fn stay(&self) -> (r: MovedMolecule)
        ensures
            r == self.stayed(),
    {
        MovedMolecule { molecule: self.molecule, next_position: self.molecule.position }
    }

    /// Tests this molecule against `other`: a pair when they overlap, this
    /// molecule alone otherwise. Tangent molecules overlap.
    pub fn test_collision(self, other: &Self) -> (r: CollidedMolecules)
        ensures
            collides(self, *other) ==> r == CollidedMolecules::Bi(self, *other),
            !collides(self, *other) ==> r == CollidedMolecules::Mono(self),
    {
        let d2 = self.next_position.distance_pow2(&other.next_position);
        let radius_sum: i128 = self.molecule.kind.radius as i128 + other.molecule.kind.radius as i128;
        proof {
            assert(radius_sum * radius_sum <= 0x2_0000_0000 * 0x2_0000_0000) by (nonlinear_arith)
                requires
                    0 <= radius_sum <= 0x2_0000_0000,
            ;
        }
        if d2 > radius_sum * radius_sum {
            CollidedMolecules::Mono(self)
        } else {
            CollidedMolecules::Bi(self, *other)
        }
    }

    /// Resolves primary `i` of `bucket`: its unconsumed later partners are
    /// tested in order; the first overlapping one whose trial fires reacts
    /// with it, and its index is returned; a failed trial cancels the steps
    /// of both. Without a reaction, the lone trial of `i` decides. `rolls`
    /// holds one roll for each pair of indices of the bucket.
    pub fn process_collisions(
        bucket: &mut Vec<MovedMolecule>,
        i: usize,
        consumed: &Vec<bool>,
        reaction_registry: &ReactionRegistry,
        rolls: &Vec<Vec<u64>>,
    ) -> (r: (Vec<Molecule>, Option<usize>))
        requires
            reaction_registry.wf(),
            i < old(bucket)@.len(),
            consumed@.len() == old(bucket)@.len(),
            roll_table_fits(table_view(*rolls), old(bucket)@.len() as int),
        ensures
            final(bucket)@.len() == old(bucket)@.len(),
            r.1 matches Some(j) ==> i < j < old(bucket)@.len(),
            (final(bucket)@, r.0@, index_opt(r.1)) == resolve_primary(
                *reaction_registry,
                table_view(*rolls),
                old(bucket)@.len() as int,
                i as int,
                old(bucket)@,
                consumed@,
            ),
    {
        let n = bucket.len();
        let ghost start = bucket@;
        let mut j: usize = i + 1;
        while j < n
            invariant
                i < j <= n,
                n == bucket@.len(),
                n == start.len(),
                start == old(bucket)@,
                consumed@.len() == n,
                roll_table_fits(table_view(*rolls), n as int),
                reaction_registry.wf(),
                scan_partners(*reaction_registry, table_view(*rolls), n as int, i as int, j as int, bucket@, consumed@)
                    == scan_partners(*reaction_registry, table_view(*rolls), n as int, i as int, i + 1, start, consumed@),
            decreases n - j,
        {
            if !consumed[j] {
                let a = bucket[i];
                let b = bucket[j];
                let test = a.test_collision(&b);
                if let CollidedMolecules::Bi(_, _) = test {
                    let roll = rolls[i][j];
                    let (mols, fired) = reaction_registry.decide_with_roll(test, roll);
                    if fired {
                        assert(collides(a, b));
                        assert(roll == roll_at(table_view(*rolls), i as int, j as int));
                        return (mols, Some(j));
                    }
                    let sa = a.stay();
                    let sb = b.stay();
                    bucket.set(i, sa);
                    bucket.set(j, sb);
                }
            }
            j = j + 1;
        }
        let lone = bucket[i];
        let roll = rolls[i][i];
        let (mols, _) = reaction_registry.decide_with_roll(CollidedMolecules::Mono(lone), roll);
        (mols, None)
    }
}

} // verus!

