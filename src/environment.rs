//! Building a simulation from parsed declarations.
use vstd::prelude::*;

use crate::declarations::{DiameterDeclaration, Expression, Reaction, SpeedDeclaration};
use crate::element::Element;
use crate::molecule::Molecule;
use crate::probability::{
    binding_of, dissociation_of, kinetics_valid, release_of, Probability,
};
use crate::reaction_registry::{is_one, is_two, CollidedElements, Outcome, ReactionRegistry};
use crate::value_board::ValueBoard;
use crate::vector::{generate_random_position, in_domain};

verus! {

/// Radius and speed of a species that no declaration sets: one length unit.
pub const DEFAULT_SIZE: u32 = 1000;

/// The species by name, the species named `names[i]` having identity `i`.
pub struct IdElementTable {
    pub names: Vec<String>,
    pub elements: Vec<Element>,
}

/// Why a set of declarations does not make a simulation.
#[derive(Debug, Clone, Copy, PartialEq, Eq, Structural)]
pub enum ConfigError {
    /// The reaction at this position of the declarations has a probability
    /// that is undefined or above one.
    ProbabilityOutOfRange(usize),
    /// The speed declared at this position does not fit in 32 bits.
    SpeedOutOfRange(usize),
    /// The diameter declared at this position does not fit in 32 bits.
    DiameterOutOfRange(usize),
}

/// Whether each declaration makes sense on its own: the probabilities of a
/// reaction within one, speeds and diameters within 32 bits.
pub open spec fn declaration_valid(e: Expression) -> bool {
    match e {
        Expression::Reaction(r) => kinetics_valid(r.km as int, r.kcat as int),
        Expression::SpeedDeclaration(d) => d.speed <= u32::MAX,
        Expression::DiameterDeclaration(d) => d.diameter <= u32::MAX,
        Expression::InitDeclaration(_) => true,
    }
}

/// The number of molecules the declarations ask for at the start.
pub open spec fn initial_count(es: Seq<Expression>) -> int
    decreases es.len(),
{
    if es.len() == 0 {
        0
    } else {
        initial_count(es.drop_last()) + match es.last() {
            Expression::InitDeclaration(d) => d.number as int,
            _ => 0,
        }
    }
}

/// The species name of each molecule the declarations ask for at the start,
/// in order: the name of each initial declaration, repeated its count.
pub open spec fn initial_names(es: Seq<Expression>) -> Seq<Seq<char>>
    decreases es.len(),
{
    if es.len() == 0 {
        seq![]
    } else {
        initial_names(es.drop_last()) + match es.last() {
            Expression::InitDeclaration(d) => Seq::new(d.number as nat, |i: int| d.identifier@),
            _ => seq![],
        }
    }
}

/// Registers a reaction in which `enzyme` binds `substrate` into `complex`,
/// which then either dissociates back or releases `product` beside the
/// enzyme, with the probabilities that `km` and `kcat` give. Leaves the
/// registry as it was and returns `false` when those are undefined or above
/// one.
pub fn register_reaction(
    registry: &mut ReactionRegistry,
    enzyme: Element,
    substrate: Element,
    product: Element,
    complex: Element,
    km: u64,
    kcat: u64,
) -> (r: bool)
    requires
        old(registry).wf(),
    ensures
        final(registry).wf(),
        r == kinetics_valid(km as int, kcat as int),
        r ==> is_one(
            final(registry).lookup(CollidedElements::Bi(enzyme, substrate).key()),
            seq![complex],
            binding_of(km as int, kcat as int) as u64,
        ),
        r ==> is_two(
            final(registry).lookup(CollidedElements::Mono(complex).key()),
            seq![enzyme, substrate],
            dissociation_of(kcat as int) as u64,
            seq![enzyme, product],
            release_of(kcat as int) as u64,
        ),
        forall|k: (bool, u64, u64)|
            k != CollidedElements::Bi(enzyme, substrate).key() && k != CollidedElements::Mono(
                complex,
            ).key() ==> #[trigger] final(registry).lookup(k) == old(registry).lookup(k),
        !r ==> forall|k: (bool, u64, u64)| #[trigger] final(registry).lookup(k) == old(registry).lookup(k),
{
    match Probability::calc_probability(km, kcat) {
        None => false,
        Some((bind, back, release)) => {
            let bound = vec![complex];
            assert(bound@ == seq![complex]);
            registry.insert(CollidedElements::Bi(enzyme, substrate), Outcome::One(bound, bind));
            let ghost bi = CollidedElements::Bi(enzyme, substrate).key();
            let ghost mono = CollidedElements::Mono(complex).key();
            assert(bi != mono);
            let ghost after_bind = registry.lookup(bi);
            registry.insert(
                CollidedElements::Mono(complex),
                Outcome::Two((vec![enzyme, substrate], back), (vec![enzyme, product], release)),
            );
            assert(registry.lookup(bi) == after_bind);
            true
        },
    }
}

impl IdElementTable {
    pub open spec fn wf(&self) -> bool {
        &&& self.names@.len() == self.elements@.len()
        &&& forall|i: int| 0 <= i < self.elements@.len() ==> #[trigger] self.elements@[i].uuid == i
        &&& forall|i: int, j: int|
            0 <= i < j < self.names@.len() ==> #[trigger] self.names@[i]@ != #[trigger] self.names@[j]@
    }

    /// The position of `name` in the table, if it is there.
    pub open spec fn position(&self, name: Seq<char>) -> Option<int> {
        if exists|i: int| 0 <= i < self.names@.len() && self.names@[i]@ == name {
            Some(choose|i: int| 0 <= i < self.names@.len() && self.names@[i]@ == name)
        } else {
            None
        }
    }

    pub fn new() -> (r: IdElementTable)
        ensures
            r.wf(),
            r.names@.len() == 0,
    {
        IdElementTable { names: Vec::new(), elements: Vec::new() }
    }

    /// The position of `name`, if the table holds it.
    pub fn find(&self, name: &String) -> (r: Option<usize>)
        requires
            self.wf(),
        ensures
            r matches Some(i) ==> i < self.names@.len() && self.names@[i as int]@ == name@,
            r is None ==> forall|i: int| 0 <= i < self.names@.len() ==> self.names@[i]@ != name@,
    {
        let mut i: usize = 0;
        while i < self.names.len()
            invariant
                i <= self.names@.len(),
                forall|k: int| 0 <= k < i ==> self.names@[k]@ != name@,
            decreases self.names@.len() - i,
        {
            if self.names[i] == *name {
                return Some(i);
            }
            i = i + 1;
        }
        None
    }

    /// Adds `element` under a name the table does not hold yet.
    fn add(&mut self, name: String, radius: u32, speed: u32) -> (r: usize)
        requires
            old(self).wf(),
            forall|i: int| 0 <= i < old(self).names@.len() ==> old(self).names@[i]@ != name@,
        ensures
            final(self).wf(),
            r == old(self).names@.len(),
            final(self).names@ == old(self).names@.push(name),
            final(self).elements@ == old(self).elements@.push(
                Element { uuid: r as u64, radius, speed },
            ),
    {
        let id = self.elements.len();
        self.names.push(name);
        self.elements.push(Element { uuid: id as u64, radius, speed });
        id
    }

    /// The species of that name, added with the default radius and speed
    /// when it is new.
    pub fn insert_by_name(&mut self, name: String) -> (r: Element)
        requires
            old(self).wf(),
        ensures
            final(self).wf(),
            final(self).position(name@) is Some,
            forall|n: Seq<char>|
                old(self).position(n) is Some ==> #[trigger] final(self).position(n) == old(
                    self,
                ).position(n),
            r.uuid < final(self).names@.len(),
            final(self).names@[r.uuid as int]@ == name@,
            final(self).names@.len() >= old(self).names@.len(),
            forall|i: int|
                0 <= i < old(self).names@.len() ==> #[trigger] final(self).names@[i] == old(
                    self,
                ).names@[i],
            old(self).position(name@) matches Some(i) ==> final(self).names@ == old(self).names@
                && final(self).elements@ == old(self).elements@ && r == old(self).elements@[i],
            old(self).position(name@) is None ==> final(self).names@ == old(self).names@.push(name)
                && r == (Element {
                uuid: old(self).names@.len() as u64,
                radius: DEFAULT_SIZE,
                speed: DEFAULT_SIZE,
            }) && final(self).elements@ == old(self).elements@.push(r),
    {
        let ghost before = *self;
        let r = match self.find(&name) {
            Some(i) => {
                proof {
                    self.lemma_position(name@, i as int);
                }
                self.elements[i]
            },
            None => {
                let id = self.add(name, DEFAULT_SIZE, DEFAULT_SIZE);
                self.elements[id]
            },
        };
        proof {
            lemma_positions_kept(before, *self);
            self.lemma_position(name@, r.uuid as int);
        }
        r
    }

    /// Sets the speed of the species of that name, added with the default
    /// radius when it is new.
    pub fn insert_by_speed(&mut self, name: String, speed: u32) -> (r: Element)
        requires
            old(self).wf(),
        ensures
            final(self).wf(),
            final(self).position(name@) is Some,
            forall|n: Seq<char>|
                old(self).position(n) is Some ==> #[trigger] final(self).position(n) == old(
                    self,
                ).position(n),
            old(self).position(name@) matches Some(i) ==> final(self).names@ == old(self).names@
                && final(self).elements@ == old(self).elements@.update(i, r) && r == (Element {
                speed,
                ..old(self).elements@[i]
            }),
            old(self).position(name@) is None ==> final(self).names@ == old(self).names@.push(name)
                && r == (Element {
                uuid: old(self).names@.len() as u64,
                radius: DEFAULT_SIZE,
                speed,
            }) && final(self).elements@ == old(self).elements@.push(r),
    {
        let ghost before = *self;
        let r = match self.find(&name) {
            Some(i) => {
                proof {
                    self.lemma_position(name@, i as int);
                }
                let mut e = self.elements[i];
                e.speed = speed;
                self.elements.set(i, e);
                e
            },
            None => {
                let id = self.add(name, DEFAULT_SIZE, speed);
                self.elements[id]
            },
        };
        proof {
            lemma_positions_kept(before, *self);
            self.lemma_position(name@, r.uuid as int);
        }
        r
    }

    /// Sets the radius of the species of that name to half `diameter`,
    /// added with the default speed when it is new.
    pub fn insert_by_diameter(&mut self, name: String, diameter: u32) -> (r: Element)
        requires
            old(self).wf(),
        ensures
            final(self).wf(),
            final(self).position(name@) is Some,
            forall|n: Seq<char>|
                old(self).position(n) is Some ==> #[trigger] final(self).position(n) == old(
                    self,
                ).position(n),
            old(self).position(name@) matches Some(i) ==> final(self).names@ == old(self).names@
                && final(self).elements@ == old(self).elements@.update(i, r) && r == (Element {
                radius: diameter / 2,
                ..old(self).elements@[i]
            }),
            old(self).position(name@) is None ==> final(self).names@ == old(self).names@.push(name)
                && r == (Element {
                uuid: old(self).names@.len() as u64,
                radius: diameter / 2,
                speed: DEFAULT_SIZE,
            }) && final(self).elements@ == old(self).elements@.push(r),
    {
        let ghost before = *self;
        let r = match self.find(&name) {
            Some(i) => {
                proof {
                    self.lemma_position(name@, i as int);
                }
                let mut e = self.elements[i];
                e.radius = diameter / 2;
                self.elements.set(i, e);
                e
            },
            None => {
                let id = self.add(name, diameter / 2, DEFAULT_SIZE);
                self.elements[id]
            },
        };
        proof {
            lemma_positions_kept(before, *self);
            self.lemma_position(name@, r.uuid as int);
        }
        r
    }

    /// The species of a name the table holds.
    pub open spec fn element_named(&self, name: Seq<char>) -> Element {
        self.elements@[self.position(name)->0]
    }

    /// The species of a name the table holds.
    pub fn lookup(&self, name: &String) -> (r: Element)
        requires
            self.wf(),
            self.position(name@) is Some,
        ensures
            r == self.element_named(name@),
            r.uuid == self.position(name@)->0,
            self.names@[r.uuid as int]@ == name@,
    {
        match self.find(name) {
            Some(i) => {
                proof {
                    self.lemma_position(name@, i as int);
                }
                self.elements[i]
            },
            None => {
                proof {
                    let i = choose|i: int| 0 <= i < self.names@.len() && self.names@[i]@ == name@;
                    assert(self.names@[i]@ != name@);
                }
                self.elements[0]
            },
        }
    }

    pub proof fn lemma_position(&self, name: Seq<char>, i: int)
        requires
            self.wf(),
            0 <= i < self.names@.len(),
            self.names@[i]@ == name,
        ensures
            self.position(name) == Some(i),
    {
        let j = choose|j: int| 0 <= j < self.names@.len() && self.names@[j]@ == name;
        if j < i {
            assert(self.names@[j]@ != self.names@[i]@);
        } else if i < j {
            assert(self.names@[i]@ != self.names@[j]@);
        }
    }
}

/// A table that keeps the names of another at the same positions finds
/// every name of the other where the other does.
pub proof fn lemma_positions_kept(a: IdElementTable, b: IdElementTable)
    requires
        a.wf(),
        b.wf(),
        a.names@.len() <= b.names@.len(),
        forall|i: int| 0 <= i < a.names@.len() ==> #[trigger] b.names@[i] == a.names@[i],
    ensures
        forall|n: Seq<char>| a.position(n) is Some ==> #[trigger] b.position(n) == a.position(n),
{
    assert forall|n: Seq<char>| a.position(n) is Some implies #[trigger] b.position(n) == a.position(
        n,
    ) by {
        let i = choose|i: int| 0 <= i < a.names@.len() && a.names@[i]@ == n;
        a.lemma_position(n, i);
        assert(b.names@[i] == a.names@[i]);
        b.lemma_position(n, i);
    }
}

/// Whether the table holds every name a declaration mentions.
pub open spec fn names_present(t: IdElementTable, e: Expression) -> bool {
    match e {
        Expression::Reaction(r) => {
            &&& t.position(r.enzhym@) is Some
            &&& t.position(r.solubes@) is Some
            &&& t.position(r.results@) is Some
            &&& t.position(complex_name_of(r.enzhym@, r.solubes@)) is Some
        },
        Expression::SpeedDeclaration(d) => t.position(d.identifier@) is Some,
        Expression::DiameterDeclaration(d) => t.position(d.identifier@) is Some,
        Expression::InitDeclaration(d) => t.position(d.identifier@) is Some,
    }
}

/// A table that finds every name of another where the other does holds
/// every name of a declaration that the other holds.
pub proof fn lemma_present_kept(a: IdElementTable, b: IdElementTable, e: Expression)
    requires
        names_present(a, e),
        forall|n: Seq<char>| a.position(n) is Some ==> #[trigger] b.position(n) == a.position(n),
    ensures
        names_present(b, e),
{
    match e {
        Expression::Reaction(r) => {
            assert(b.position(r.enzhym@) == a.position(r.enzhym@));
            assert(b.position(r.solubes@) == a.position(r.solubes@));
            assert(b.position(r.results@) == a.position(r.results@));
            assert(b.position(complex_name_of(r.enzhym@, r.solubes@)) == a.position(
                complex_name_of(r.enzhym@, r.solubes@),
            ));
        },
        Expression::SpeedDeclaration(d) => {
            assert(b.position(d.identifier@) == a.position(d.identifier@));
        },
        Expression::DiameterDeclaration(d) => {
            assert(b.position(d.identifier@) == a.position(d.identifier@));
        },
        Expression::InitDeclaration(d) => {
            assert(b.position(d.identifier@) == a.position(d.identifier@));
        },
    }
}

/// The speed the last speed declaration of `name` in `es` sets, else the
/// default.
pub open spec fn declared_speed(es: Seq<Expression>, name: Seq<char>) -> int
    decreases es.len(),
{
    if es.len() == 0 {
        DEFAULT_SIZE as int
    } else {
        match es.last() {
            Expression::SpeedDeclaration(d) => if d.identifier@ == name {
                d.speed as int
            } else {
                declared_speed(es.drop_last(), name)
            },
            _ => declared_speed(es.drop_last(), name),
        }
    }
}

/// Half the diameter the last diameter declaration of `name` in `es` sets,
/// else the default radius.
pub open spec fn declared_radius(es: Seq<Expression>, name: Seq<char>) -> int
    decreases es.len(),
{
    if es.len() == 0 {
        DEFAULT_SIZE as int
    } else {
        match es.last() {
            Expression::DiameterDeclaration(d) => if d.identifier@ == name {
                d.diameter as int / 2
            } else {
                declared_radius(es.drop_last(), name)
            },
            _ => declared_radius(es.drop_last(), name),
        }
    }
}

/// Each species of the table has the radius and speed that `es` declares
/// for its name, and a name the table lacks has none declared.
pub open spec fn sizes_declared(t: IdElementTable, es: Seq<Expression>) -> bool {
    &&& forall|i: int|
        0 <= i < t.elements@.len() ==> {
            &&& (#[trigger] t.elements@[i]).speed == declared_speed(es, t.names@[i]@)
            &&& t.elements@[i].radius == declared_radius(es, t.names@[i]@)
        }
    &&& forall|n: Seq<char>|
        #[trigger] t.position(n) is None ==> declared_speed(es, n) == DEFAULT_SIZE
            && declared_radius(es, n) == DEFAULT_SIZE
}

/// Adding a name with the default sizes, or finding it, keeps the sizes as
/// declared.
pub proof fn lemma_sizes_by_name(a: IdElementTable, b: IdElementTable, name: String, es: Seq<Expression>)
    requires
        a.wf(),
        b.wf(),
        sizes_declared(a, es),
        a.position(name@) is Some ==> b.names@ == a.names@ && b.elements@ == a.elements@,
        a.position(name@) is None ==> b.names@ == a.names@.push(name) && b.elements@
            == a.elements@.push(
            Element { uuid: a.names@.len() as u64, radius: DEFAULT_SIZE, speed: DEFAULT_SIZE },
        ),
    ensures
        sizes_declared(b, es),
{
    lemma_positions_kept(a, b);
    assert forall|n: Seq<char>| #[trigger] b.position(n) is None implies declared_speed(es, n)
        == DEFAULT_SIZE && declared_radius(es, n) == DEFAULT_SIZE by {
        assert(a.position(n) is None);
    }
    assert forall|i: int| 0 <= i < b.elements@.len() implies {
        &&& (#[trigger] b.elements@[i]).speed == declared_speed(es, b.names@[i]@)
        &&& b.elements@[i].radius == declared_radius(es, b.names@[i]@)
    } by {
        if i < a.elements@.len() {
            assert(a.elements@[i].speed == declared_speed(es, a.names@[i]@));
        } else {
            assert(a.position(name@) is None);
        }
    }
}

/// Setting the speed of a name to what a new speed declaration says keeps
/// the sizes as declared, with that declaration added.
pub proof fn lemma_sizes_by_speed(
    a: IdElementTable,
    b: IdElementTable,
    d: SpeedDeclaration,
    es: Seq<Expression>,
)
    requires
        a.wf(),
        b.wf(),
        sizes_declared(a, es),
        d.speed <= u32::MAX,
        a.position(d.identifier@) matches Some(i) ==> b.names@ == a.names@ && b.elements@
            == a.elements@.update(i, Element { speed: d.speed as u32, ..a.elements@[i] }),
        a.position(d.identifier@) is None ==> b.names@ == a.names@.push(d.identifier)
            && b.elements@ == a.elements@.push(
            Element { uuid: a.names@.len() as u64, radius: DEFAULT_SIZE, speed: d.speed as u32 },
        ),
    ensures
        sizes_declared(b, es.push(Expression::SpeedDeclaration(d))),
{
    let e = es.push(Expression::SpeedDeclaration(d));
    assert(e.drop_last() == es);
    lemma_positions_kept(a, b);
    assert forall|n: Seq<char>| #[trigger] b.position(n) is None implies declared_speed(e, n)
        == DEFAULT_SIZE && declared_radius(e, n) == DEFAULT_SIZE by {
        assert(a.position(n) is None);
        if n == d.identifier@ {
            assert(b.position(d.identifier@) is Some) by {
                if a.position(d.identifier@) is Some {
                } else {
                    b.lemma_position(n, a.names@.len() as int);
                }
            }
        }
    }
    assert forall|i: int| 0 <= i < b.elements@.len() implies {
        &&& (#[trigger] b.elements@[i]).speed == declared_speed(e, b.names@[i]@)
        &&& b.elements@[i].radius == declared_radius(e, b.names@[i]@)
    } by {
        if a.position(d.identifier@) is Some {
            let j = a.position(d.identifier@)->0;
            if i != j {
                assert(a.elements@[i].speed == declared_speed(es, a.names@[i]@));
                if b.names@[i]@ == d.identifier@ {
                    a.lemma_position(d.identifier@, i);
                }
            } else {
                assert(a.elements@[i].speed == declared_speed(es, a.names@[i]@));
                a.lemma_position(d.identifier@, j);
            }
        } else if i < a.elements@.len() {
            assert(a.elements@[i].speed == declared_speed(es, a.names@[i]@));
            if b.names@[i]@ == d.identifier@ {
                a.lemma_position(d.identifier@, i);
            }
        }
    }
}

/// Setting the radius of a name to half what a new diameter declaration
/// says keeps the sizes as declared, with that declaration added.
pub proof fn lemma_sizes_by_diameter(
    a: IdElementTable,
    b: IdElementTable,
    d: DiameterDeclaration,
    es: Seq<Expression>,
)
    requires
        a.wf(),
        b.wf(),
        sizes_declared(a, es),
        d.diameter <= u32::MAX,
        a.position(d.identifier@) matches Some(i) ==> b.names@ == a.names@ && b.elements@
            == a.elements@.update(
            i,
            Element { radius: (d.diameter as u32) / 2, ..a.elements@[i] },
        ),
        a.position(d.identifier@) is None ==> b.names@ == a.names@.push(d.identifier)
            && b.elements@ == a.elements@.push(
            Element {
                uuid: a.names@.len() as u64,
                radius: (d.diameter as u32) / 2,
                speed: DEFAULT_SIZE,
            },
        ),
    ensures
        sizes_declared(b, es.push(Expression::DiameterDeclaration(d))),
{
    let e = es.push(Expression::DiameterDeclaration(d));
    assert(e.drop_last() == es);
    lemma_positions_kept(a, b);
    assert forall|n: Seq<char>| #[trigger] b.position(n) is None implies declared_speed(e, n)
        == DEFAULT_SIZE && declared_radius(e, n) == DEFAULT_SIZE by {
        assert(a.position(n) is None);
        if n == d.identifier@ {
            assert(b.position(d.identifier@) is Some) by {
                if a.position(d.identifier@) is Some {
                } else {
                    b.lemma_position(n, a.names@.len() as int);
                }
            }
        }
    }
    assert forall|i: int| 0 <= i < b.elements@.len() implies {
        &&& (#[trigger] b.elements@[i]).speed == declared_speed(e, b.names@[i]@)
        &&& b.elements@[i].radius == declared_radius(e, b.names@[i]@)
    } by {
        if a.position(d.identifier@) is Some {
            let j = a.position(d.identifier@)->0;
            if i != j {
                assert(a.elements@[i].speed == declared_speed(es, a.names@[i]@));
                if b.names@[i]@ == d.identifier@ {
                    a.lemma_position(d.identifier@, i);
                }
            } else {
                assert(a.elements@[i].speed == declared_speed(es, a.names@[i]@));
                a.lemma_position(d.identifier@, j);
            }
        } else if i < a.elements@.len() {
            assert(a.elements@[i].speed == declared_speed(es, a.names@[i]@));
            if b.names@[i]@ == d.identifier@ {
                a.lemma_position(d.identifier@, i);
            }
        }
    }
}

/// A reaction or initial declaration declares no size.
pub proof fn lemma_sizes_other(t: IdElementTable, es: Seq<Expression>, x: Expression)
    requires
        sizes_declared(t, es),
        x is Reaction || x is InitDeclaration,
    ensures
        sizes_declared(t, es.push(x)),
{
    assert(es.push(x).drop_last() == es);
}

/// The complex a reaction declaration forms, if it is one.
pub open spec fn complex_of(e: Expression) -> Option<Seq<char>> {
    match e {
        Expression::Reaction(r) => Some(complex_name_of(r.enzhym@, r.solubes@)),
        _ => None,
    }
}

/// No reaction between positions `k` and `end` of `es` forms the same
/// complex as the reaction at `k`, and so none replaces its entries.
pub open spec fn last_of_complex(es: Seq<Expression>, k: int, end: int) -> bool {
    forall|j: int| k < j < end ==> complex_of(#[trigger] es[j]) != complex_of(es[k])
}

/// The registry holds both entries of reaction `r`, over the species the
/// table gives its names: enzyme and substrate bind into the complex, and
/// the complex either dissociates or releases the product beside the enzyme.
pub open spec fn registered(t: IdElementTable, registry: ReactionRegistry, r: Reaction) -> bool {
    let e = t.element_named(r.enzhym@);
    let s = t.element_named(r.solubes@);
    let p = t.element_named(r.results@);
    let c = t.element_named(complex_name_of(r.enzhym@, r.solubes@));
    &&& is_one(
        registry.lookup(CollidedElements::Bi(e, s).key()),
        seq![c],
        binding_of(r.km as int, r.kcat as int) as u64,
    )
    &&& is_two(
        registry.lookup(CollidedElements::Mono(c).key()),
        seq![e, s],
        dissociation_of(r.kcat as int) as u64,
        seq![e, p],
        release_of(r.kcat as int) as u64,
    )
}

/// Reactions that form different complexes have different registry keys.
pub proof fn lemma_keys_differ(t: IdElementTable, a: Reaction, b: Reaction)
    requires
        t.wf(),
        names_present(t, Expression::Reaction(a)),
        names_present(t, Expression::Reaction(b)),
        complex_name_of(a.enzhym@, a.solubes@) != complex_name_of(b.enzhym@, b.solubes@),
    ensures
        CollidedElements::Bi(t.element_named(a.enzhym@), t.element_named(a.solubes@)).key()
            != CollidedElements::Bi(t.element_named(b.enzhym@), t.element_named(b.solubes@)).key(),
        CollidedElements::Mono(t.element_named(complex_name_of(a.enzhym@, a.solubes@))).key()
            != CollidedElements::Mono(t.element_named(complex_name_of(b.enzhym@, b.solubes@))).key(),
{
    let names = seq![a.enzhym@, a.solubes@, b.enzhym@, b.solubes@, complex_name_of(a.enzhym@, a.solubes@), complex_name_of(b.enzhym@, b.solubes@)];
    assert forall|k: int| 0 <= k < 6 implies {
        let i = t.position(#[trigger] names[k])->0;
        &&& 0 <= i < t.names@.len()
        &&& t.names@[i]@ == names[k]
        &&& t.element_named(names[k]).uuid == i
    } by {
        let i = choose|i: int| 0 <= i < t.names@.len() && t.names@[i]@ == names[k];
        t.lemma_position(names[k], i);
    }
    assert(names[0] == a.enzhym@);
    assert(names[1] == a.solubes@);
    assert(names[2] == b.enzhym@);
    assert(names[3] == b.solubes@);
    assert(names[4] == complex_name_of(a.enzhym@, a.solubes@));
    assert(names[5] == complex_name_of(b.enzhym@, b.solubes@));
}

/// Everything a simulation runs on: the board it fills, the reactions, the
/// molecules and the species they are made of.
pub struct Environment {
    pub board: ValueBoard,
    pub registry: ReactionRegistry,
    pub molecules: Vec<Molecule>,
    pub table: IdElementTable,
}

impl Environment {
    /// Builds a simulation from declarations. Species get identities in the
    /// order they are first named, speed and diameter declarations apply
    /// before any reaction is registered, each reaction registers its two
    /// entries, and each initial declaration adds that many molecules at
    /// random positions inside the domain. Fails on the first declaration,
    /// in order, that does not make sense on its own.
    pub fn from_declarations(expressions: &Vec<Expression>, rng: &mut fastrand::Rng) -> (r: Result<
        Environment,
        ConfigError,
    >)
        ensures
            r is Ok <==> forall|k: int|
                0 <= k < expressions@.len() ==> declaration_valid(#[trigger] expressions@[k]),
            r matches Err(ConfigError::ProbabilityOutOfRange(k)) ==> k < expressions@.len()
                && !declaration_valid(expressions@[k as int]),
            r matches Err(ConfigError::SpeedOutOfRange(k)) ==> k < expressions@.len()
                && !declaration_valid(expressions@[k as int]),
            r matches Err(ConfigError::DiameterOutOfRange(k)) ==> k < expressions@.len()
                && !declaration_valid(expressions@[k as int]),
            r matches Ok(env) ==> {
                &&& env.table.wf()
                &&& sizes_declared(env.table, expressions@)
                &&& env.registry.wf()
                &&& env.board.rows@.len() == 0
                &&& env.board.columns@.len() == env.table.names@.len() + 1
                &&& forall|i: int|
                    0 <= i < env.table.names@.len() ==> #[trigger] env.board.columns@[i]
                        == env.table.names@[i]
                &&& forall|k: int|
                    0 <= k < expressions@.len() ==> names_present(
                        env.table,
                        #[trigger] expressions@[k],
                    )
                &&& forall|k: int|
                    0 <= k < expressions@.len() && #[trigger] expressions@[k] is Reaction
                        && last_of_complex(expressions@, k, expressions@.len() as int)
                        ==> registered(env.table, env.registry, expressions@[k]->Reaction_0)
                &&& env.molecules@.len() == initial_count(expressions@)
                &&& env.molecules@.len() == initial_names(expressions@).len()
                &&& forall|m: int|
                    0 <= m < env.molecules@.len() ==> {
                        &&& #[trigger] env.molecules@[m].kind.uuid < env.table.names@.len()
                        &&& env.molecules@[m].kind == env.table.elements@[env.molecules@[
                            m].kind.uuid as int]
                        &&& env.table.names@[env.molecules@[m].kind.uuid as int]@
                            == initial_names(expressions@)[m]
                    }
                &&& forall|m: int|
                    0 <= m < env.molecules@.len() ==> in_domain(
                        #[trigger] env.molecules@[m].position.x as int,
                        env.molecules@[m].position.y as int,
                        env.molecules@[m].position.z as int,
                    )
            },
    {
        let mut table = IdElementTable::new();
        let mut k: usize = 0;
        while k < expressions.len()
            invariant
                k <= expressions@.len(),
                table.wf(),
                forall|j: int|
                    0 <= j < k ==> !(#[trigger] expressions@[j] is Reaction) ==> declaration_valid(
                        expressions@[j],
                    ),
                forall|j: int| 0 <= j < k ==> names_present(table, #[trigger] expressions@[j]),
                sizes_declared(table, expressions@.subrange(0, k as int)),
            decreases expressions@.len() - k,
        {
            let ghost before = table;
            let ghost prefix = expressions@.subrange(0, k as int);
            assert(expressions@.subrange(0, k + 1) == prefix.push(expressions@[k as int]));
            match &expressions[k] {
                Expression::Reaction(r) => {
                    table.insert_by_name(r.enzhym.clone());
                    let ghost t1 = table;
                    table.insert_by_name(r.solubes.clone());
                    let ghost t2 = table;
                    table.insert_by_name(r.results.clone());
                    let ghost t3 = table;
                    let cname = complex_name(r);
                    let ghost cn = cname;
                    table.insert_by_name(cname);
                    proof {
                        lemma_sizes_by_name(before, t1, r.enzhym, prefix);
                        lemma_sizes_by_name(t1, t2, r.solubes, prefix);
                        lemma_sizes_by_name(t2, t3, r.results, prefix);
                        lemma_sizes_by_name(t3, table, cn, prefix);
                        lemma_sizes_other(table, prefix, expressions@[k as int]);
                        assert forall|n: Seq<char>| before.position(n) is Some implies #[trigger] table.position(n) == before.position(n) by {
                            assert(t1.position(n) == before.position(n));
                            assert(t2.position(n) == t1.position(n));
                            assert(t3.position(n) == t2.position(n));
                        }
                        assert(t2.position(r.enzhym@) == t1.position(r.enzhym@));
                        assert(t3.position(r.enzhym@) == t2.position(r.enzhym@));
                        assert(t3.position(r.solubes@) == t2.position(r.solubes@));
                    }
                },
                Expression::SpeedDeclaration(d) => {
                    if d.speed > 0xffff_ffff {
                        return Err(ConfigError::SpeedOutOfRange(k));
                    }
                    table.insert_by_speed(d.identifier.clone(), d.speed as u32);
                    proof {
                        lemma_sizes_by_speed(before, table, *d, prefix);
                    }
                },
                Expression::DiameterDeclaration(d) => {
                    if d.diameter > 0xffff_ffff {
                        return Err(ConfigError::DiameterOutOfRange(k));
                    }
                    table.insert_by_diameter(d.identifier.clone(), d.diameter as u32);
                    proof {
                        lemma_sizes_by_diameter(before, table, *d, prefix);
                    }
                },
                Expression::InitDeclaration(d) => {
                    table.insert_by_name(d.identifier.clone());
                    proof {
                        lemma_sizes_by_name(before, table, d.identifier, prefix);
                        lemma_sizes_other(table, prefix, expressions@[k as int]);
                    }
                },
            }
            proof {
                assert forall|j: int| 0 <= j < k implies names_present(
                    table,
                    #[trigger] expressions@[j],
                ) by {
                    lemma_present_kept(before, table, expressions@[j]);
                }
                assert(names_present(table, expressions@[k as int]));
            }
            k = k + 1;
        }
        assert(expressions@.subrange(0, expressions@.len() as int) == expressions@);
        let mut registry = ReactionRegistry::new();
        let mut k: usize = 0;
        while k < expressions.len()
            invariant
                k <= expressions@.len(),
                table.wf(),
                sizes_declared(table, expressions@),
                registry.wf(),
                forall|j: int| 0 <= j < expressions@.len() ==> !(#[trigger] expressions@[j] is Reaction)
                    ==> declaration_valid(expressions@[j]),
                forall|j: int| 0 <= j < k ==> declaration_valid(#[trigger] expressions@[j]),
                forall|j: int|
                    0 <= j < expressions@.len() ==> names_present(table, #[trigger] expressions@[j]),
                forall|j: int|
                    0 <= j < k && #[trigger] expressions@[j] is Reaction && last_of_complex(
                        expressions@,
                        j,
                        k as int,
                    ) ==> registered(table, registry, expressions@[j]->Reaction_0),
            decreases expressions@.len() - k,
        {
            if let Expression::Reaction(r) = &expressions[k] {
                assert(names_present(table, expressions@[k as int]));
                let enzyme = table.lookup(&r.enzhym);
                let substrate = table.lookup(&r.solubes);
                let product = table.lookup(&r.results);
                let complex_text = complex_name(r);
                let complex = table.lookup(&complex_text);
                let ghost old_registry = registry;
                if !register_reaction(&mut registry, enzyme, substrate, product, complex, r.km, r.kcat) {
                    return Err(ConfigError::ProbabilityOutOfRange(k));
                }
                proof {
                    assert forall|j: int|
                        0 <= j < k + 1 && #[trigger] expressions@[j] is Reaction && last_of_complex(
                            expressions@,
                            j,
                            k + 1,
                        ) implies registered(table, registry, expressions@[j]->Reaction_0) by {
                        if j < k {
                            let q = expressions@[j]->Reaction_0;
                            assert(complex_of(expressions@[k as int]) != complex_of(expressions@[j]));
                            assert(names_present(table, expressions@[j]));
                            lemma_keys_differ(table, q, *r);
                            assert(last_of_complex(expressions@, j, k as int));
                            assert(registered(table, old_registry, q));
                        }
                    }
                }
            } else {
                proof {
                    assert forall|j: int|
                        0 <= j < k + 1 && #[trigger] expressions@[j] is Reaction && last_of_complex(
                            expressions@,
                            j,
                            k + 1,
                        ) implies registered(table, registry, expressions@[j]->Reaction_0) by {
                        assert(last_of_complex(expressions@, j, k as int));
                    }
                }
            }
            k = k + 1;
        }
        let mut molecules: Vec<Molecule> = Vec::new();
        let mut k: usize = 0;
        while k < expressions.len()
            invariant
                k <= expressions@.len(),
                table.wf(),
                sizes_declared(table, expressions@),
                forall|j: int|
                    0 <= j < expressions@.len() ==> names_present(table, #[trigger] expressions@[j]),
                molecules@.len() == initial_count(expressions@.subrange(0, k as int)),
                molecules@.len() == initial_names(expressions@.subrange(0, k as int)).len(),
                forall|m: int|
                    0 <= m < molecules@.len() ==> {
                        &&& #[trigger] molecules@[m].kind.uuid < table.names@.len()
                        &&& molecules@[m].kind == table.elements@[molecules@[m].kind.uuid as int]
                        &&& table.names@[molecules@[m].kind.uuid as int]@ == initial_names(
                            expressions@.subrange(0, k as int),
                        )[m]
                    },
                forall|m: int|
                    0 <= m < molecules@.len() ==> in_domain(
                        #[trigger] molecules@[m].position.x as int,
                        molecules@[m].position.y as int,
                        molecules@[m].position.z as int,
                    ),
            decreases expressions@.len() - k,
        {
            assert(expressions@.subrange(0, k + 1).drop_last() == expressions@.subrange(0, k as int));
            let ghost names_before = initial_names(expressions@.subrange(0, k as int));
            if let Expression::InitDeclaration(d) = &expressions[k] {
                assert(names_present(table, expressions@[k as int]));
                let kind = table.lookup(&d.identifier);
                let mut placed: u32 = 0;
                let ghost before = molecules@.len();
                while placed < d.number
                    invariant
                        placed <= d.number,
                        molecules@.len() == before + placed,
                        before == names_before.len(),
                        table.wf(),
                        kind.uuid < table.names@.len(),
                        kind == table.elements@[kind.uuid as int],
                        table.names@[kind.uuid as int]@ == d.identifier@,
                        forall|m: int|
                            0 <= m < molecules@.len() ==> {
                                &&& #[trigger] molecules@[m].kind.uuid < table.names@.len()
                                &&& molecules@[m].kind == table.elements@[molecules@[m].kind.uuid as int]
                                &&& table.names@[molecules@[m].kind.uuid as int]@ == (names_before
                                    + Seq::new(d.number as nat, |i: int| d.identifier@))[m]
                            },
                        forall|m: int|
                            0 <= m < molecules@.len() ==> in_domain(
                                #[trigger] molecules@[m].position.x as int,
                                molecules@[m].position.y as int,
                                molecules@[m].position.z as int,
                            ),
                    decreases d.number - placed,
                {
                    let position = generate_random_position(rng);
                    molecules.push(Molecule { kind, position });
                    placed = placed + 1;
                }
            }
            k = k + 1;
        }
        assert(expressions@.subrange(0, expressions@.len() as int) == expressions@);
        let board = ValueBoard::new(clone_names(&table.names));
        Ok(Environment { board, registry, molecules, table })
    }
}

/// A copy of each name, in order.
fn clone_names(names: &Vec<String>) -> (r: Vec<String>)
    ensures
        r@ == names@,
{
    let mut out: Vec<String> = Vec::new();
    let mut i: usize = 0;
    while i < names.len()
        invariant
            i <= names@.len(),
            out@ == names@.subrange(0, i as int),
        decreases names@.len() - i,
    {
        out.push(names[i].clone());
        i = i + 1;
    }
    assert(names@.subrange(0, names@.len() as int) == names@);
    out
}

/// The name of the complex an enzyme forms with its substrate:
/// `enzyme--substrate`.
pub open spec fn complex_name_of(enzyme: Seq<char>, substrate: Seq<char>) -> Seq<char> {
    enzyme + "--"@ + substrate
}

pub fn complex_name(r: &Reaction) -> (s: String)
    ensures
        s@ == complex_name_of(r.enzhym@, r.solubes@),
{
    r.enzhym.clone().concat("--").concat(r.solubes.as_str())
}

} // verus!
