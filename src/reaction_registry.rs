use vstd::prelude::*;

use crate::collided_molecule::CollidedMolecules;
use crate::element::Element;
use crate::molecule::Molecule;
use crate::probability::Probability;
use crate::random::draw_u64;
use crate::probability::PROB_ONE;
use crate::tables::{
    reaction_entries, reaction_index_get, reaction_index_insert, reaction_index_new,
    ReactionIndex,
};
use crate::vector::Vector3d;

verus! {

/// The registry key of a collision: one species, or an ordered pair of
/// species. `Bi(a, b)` and `Bi(b, a)` are different keys.
#[derive(Debug, Clone, Copy)]
pub enum CollidedElements {
    Mono(Element),
    Bi(Element, Element),
}

impl CollidedElements {
    /// The identities the key is made of, with a tag that tells a pair from
    /// a single species.
    pub open spec fn key(self) -> (bool, u64, u64) {
        match self {
            CollidedElements::Mono(e) => (false, e.uuid, 0),
            CollidedElements::Bi(a, b) => (true, a.uuid, b.uuid),
        }
    }

    pub fn get_key(&self) -> (r: (bool, u64, u64))
        ensures
            r == self.key(),
    {
        match self {
            CollidedElements::Mono(e) => (false, e.uuid, 0),
            CollidedElements::Bi(a, b) => (true, a.uuid, b.uuid),
        }
    }
}

/// What a collision may turn into: one set of products with its
/// probability, or two competing sets with theirs.
#[derive(Debug)]
pub enum Outcome {
    One(Vec<Element>, Probability),
    Two((Vec<Element>, Probability), (Vec<Element>, Probability)),
}

/// The products that a trial with `roll` yields, if it fires. The two
/// thresholds of `Two` are its first probability and the sum of both, not
/// normalised.
pub open spec fn fired_products(o: Option<Outcome>, roll: u64) -> Option<Seq<Element>> {
    match o {
        None => None,
        Some(Outcome::One(r, p)) => if roll < p.0 {
            Some(r@)
        } else {
            None
        },
        Some(Outcome::Two((products_a, chance_a), (products_b, chance_b))) => if roll < chance_a.0 {
            Some(products_a@)
        } else if roll < chance_a.0 + chance_b.0 {
            Some(products_b@)
        } else {
            None
        },
    }
}

/// `o` is a single outcome with products `es` and probability `p`.
pub open spec fn is_one(o: Option<Outcome>, es: Seq<Element>, p: u64) -> bool {
    match o {
        Some(Outcome::One(r, q)) => r@ == es && q.0 == p,
        _ => false,
    }
}

/// `o` is a double outcome with products `es_a` at probability `p_a` and
/// products `es_b` at probability `p_b`.
pub open spec fn is_two(
    o: Option<Outcome>,
    es_a: Seq<Element>,
    p_a: u64,
    es_b: Seq<Element>,
    p_b: u64,
) -> bool {
    match o {
        Some(Outcome::Two((r_a, q_a), (r_b, q_b))) => {
            &&& r_a@ == es_a
            &&& q_a.0 == p_a
            &&& r_b@ == es_b
            &&& q_b.0 == p_b
        },
        _ => false,
    }
}

/// Each species of `es` as a new molecule at `at`.
pub open spec fn placed(es: Seq<Element>, at: Vector3d) -> Seq<Molecule> {
    es.map_values(|e: Element| Molecule { kind: e, position: at })
}

/// Maps collision keys to outcomes.
pub struct ReactionRegistry {
    register: ReactionIndex,
    outcomes: Vec<Outcome>,
}

impl ReactionRegistry {
    pub closed spec fn wf(&self) -> bool {
        let m = reaction_entries(self.register);
        &&& forall|k: (bool, u64, u64)| #[trigger] m.contains_key(k) ==> m[k] < self.outcomes@.len()
        &&& forall|k1: (bool, u64, u64), k2: (bool, u64, u64)|
            #[trigger] m.contains_key(k1) && #[trigger] m.contains_key(k2) && k1 != k2 ==> m[k1]
                != m[k2]
    }

    /// The outcome registered under a key, if any.
    pub closed spec fn lookup(&self, k: (bool, u64, u64)) -> Option<Outcome> {
        if reaction_entries(self.register).contains_key(k) {
            Some(self.outcomes@[reaction_entries(self.register)[k] as int])
        } else {
            None
        }
    }

    /// The result of a trial on `c` with `roll`: the products at the contact
    /// point when the trial fires, else what `roll_back` leaves.
    pub open spec fn decision(&self, c: CollidedMolecules, roll: u64) -> (Seq<Molecule>, bool) {
        match fired_products(self.lookup(c.elements().key()), roll) {
            Some(es) => (placed(es, c.contact()), true),
            None => (c.rolled_back(), false),
        }
    }

    pub fn new() -> (r: ReactionRegistry)
        ensures
            r.wf(),
            forall|k: (bool, u64, u64)| r.lookup(k) is None,
    {
        ReactionRegistry { register: reaction_index_new(), outcomes: Vec::new() }
    }

    /// Registers `v` under `k`, replacing what was there.
    pub fn insert(&mut self, k: CollidedElements, v: Outcome)
        requires
            old(self).wf(),
        ensures
            final(self).wf(),
            final(self).lookup(k.key()) == Some(v),
            forall|other: (bool, u64, u64)|
                other != k.key() ==> #[trigger] final(self).lookup(other) == old(self).lookup(
                    other,
                ),
    {
        let key = k.get_key();
        match reaction_index_get(&self.register, key) {
            Some(i) => {
                self.outcomes.set(i, v);
            },
            None => {
                let i = self.outcomes.len();
                self.outcomes.push(v);
                reaction_index_insert(&mut self.register, key, i);
            },
        }
    }

    pub fn get(&self, k: &CollidedElements) -> (r: Option<&Outcome>)
        requires
            self.wf(),
        ensures
            r is None <==> self.lookup(k.key()) is None,
            r is Some ==> self.lookup(k.key()) == Some(*r->0),
    {
        match reaction_index_get(&self.register, k.get_key()) {
            Some(i) => Some(&self.outcomes[i]),
            None => None,
        }
    }

    /// Runs the trial on `collided_molecules` with a given `roll`, a value
    /// below `PROB_ONE`: the products and `true` when it fires, else the
    /// rolled-back molecules and `false`.
    pub fn decide_with_roll(&self, collided_molecules: CollidedMolecules, roll: u64) -> (r: (
        Vec<Molecule>,
        bool,
    ))
        requires
            self.wf(),
        ensures
            (r.0@, r.1) == self.decision(collided_molecules, roll),
    {
        let at = collided_molecules.get_position();
        let fired: Option<&Vec<Element>> = match self.get(&collided_molecules.get_elements()) {
            None => None,
            Some(Outcome::One(r, p)) => if roll < p.get() {
                Some(r)
            } else {
                None
            },
            Some(Outcome::Two((products_a, chance_a), (products_b, chance_b))) => if roll
                < chance_a.get() {
                Some(products_a)
            } else if (roll as u128) < chance_a.get() as u128 + chance_b.get() as u128 {
                Some(products_b)
            } else {
                None
            },
        };
        match fired {
            Some(es) => (place_all(es, at), true),
            None => (collided_molecules.roll_back(), false),
        }
    }

    /// Draws a roll below `PROB_ONE` and runs the trial on
    /// `collided_molecules` with it.
    pub fn decide_collision(&self, collided_molecules: CollidedMolecules, rng: &mut fastrand::Rng) -> (r: (
        Vec<Molecule>,
        bool,
    ))
        requires
            self.wf(),
        ensures
            exists|roll: u64|
                roll < PROB_ONE && (r.0@, r.1) == #[trigger] self.decision(collided_molecules, roll),
    {
        let roll = draw_u64(rng, 0, PROB_ONE);
        let r = self.decide_with_roll(collided_molecules, roll);
        assert((r.0@, r.1) == self.decision(collided_molecules, roll));
        r
    }
}

/// A new molecule of each species of `es`, in order, at `at`.
pub fn place_all(es: &Vec<Element>, at: Vector3d) -> (r: Vec<Molecule>)
    ensures
        r@ == placed(es@, at),
{
    let mut out: Vec<Molecule> = Vec::new();
    let mut i: usize = 0;
    while i < es.len()
        invariant
            i <= es@.len(),
            out@ == placed(es@.subrange(0, i as int), at),
        decreases es@.len() - i,
    {
        out.push(Molecule { kind: es[i], position: at });
        i = i + 1;
        assert(es@.subrange(0, i as int) == es@.subrange(0, i - 1).push(es@[i - 1]));
    }
    assert(es@.subrange(0, es@.len() as int) == es@);
    out
}

/// A single outcome with a positive probability fires on a zero roll, and
/// never fires on a roll at or above its probability.
pub proof fn lemma_one_threshold(products: Vec<Element>, p: Probability, roll: u64)
    ensures
        p.0 > 0 ==> fired_products(Some(Outcome::One(products, p)), 0) == Some(products@),
        roll >= p.0 ==> fired_products(Some(Outcome::One(products, p)), roll) is None,
{
}

impl ReactionRegistry {
    /// A lone molecule whose trial fails keeps its step; a pair whose trial
    /// fails goes back, both molecules, to where they stood before the step.
    pub proof fn lemma_failed_trial_rolls_back(&self, c: CollidedMolecules, roll: u64)
        requires
            !self.decision(c, roll).1,
        ensures
            c matches CollidedMolecules::Mono(m) ==> self.decision(c, roll).0 == seq![
                Molecule { kind: m.molecule.kind, position: m.next_position },
            ],
            c matches CollidedMolecules::Bi(m1, m2) ==> self.decision(c, roll).0 == seq![
                m1.molecule,
                m2.molecule,
            ],
    {
    }

    /// A failed trial keeps every species count: the molecules that come out
    /// are those that went in. A trial that fires takes out the one or two
    /// molecules that went in and gives exactly the products, so the total
    /// changes by the number of products less one or two.
    pub proof fn lemma_trial_counts(&self, c: CollidedMolecules, roll: u64)
        ensures
            !self.decision(c, roll).1 ==> self.decision(c, roll).0.map_values(
                |m: Molecule| m.kind,
            ) == match c {
                CollidedMolecules::Mono(m) => seq![m.molecule.kind],
                CollidedMolecules::Bi(m1, m2) => seq![m1.molecule.kind, m2.molecule.kind],
            },
            self.decision(c, roll).1 ==> {
                let es = fired_products(self.lookup(c.elements().key()), roll)->0;
                &&& self.decision(c, roll).0.map_values(|m: Molecule| m.kind) == es
                &&& self.decision(c, roll).0.len() == es.len()
            },
    {
        if !self.decision(c, roll).1 {
            match c {
                CollidedMolecules::Mono(m) => {
                    assert(self.decision(c, roll).0.map_values(|m: Molecule| m.kind) =~= seq![
                        m.molecule.kind,
                    ]);
                },
                CollidedMolecules::Bi(m1, m2) => {
                    assert(self.decision(c, roll).0.map_values(|m: Molecule| m.kind) =~= seq![
                        m1.molecule.kind,
                        m2.molecule.kind,
                    ]);
                },
            }
        } else {
            let es = fired_products(self.lookup(c.elements().key()), roll)->0;
            assert(self.decision(c, roll).0.map_values(|m: Molecule| m.kind) =~= es);
        }
    }
}

} // verus!
