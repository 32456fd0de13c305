use molecule_sim::collided_molecule::CollidedMolecules;
use molecule_sim::element::Element;
use molecule_sim::molecule::Molecule;
use molecule_sim::moved_molecule::MovedMolecule;
use molecule_sim::probability::{Probability, PROB_ONE};
use molecule_sim::reaction_registry::{CollidedElements, Outcome, ReactionRegistry};
use molecule_sim::simulation::{group, resolve_bucket, simulation};
use molecule_sim::value_board::ValueBoard;
use molecule_sim::vector::{generate_random_position, Vector3d};

fn element(uuid: u64, radius: u32, speed: u32) -> Element {
    Element { uuid, radius, speed }
}

fn at(kind: Element, x: i32, y: i32, z: i32) -> Molecule {
    Molecule { kind, position: Vector3d::new(x, y, z) }
}

fn unmoved(m: Molecule) -> MovedMolecule {
    MovedMolecule { molecule: m, next_position: m.position }
}

fn same(a: &Molecule, b: &Molecule) -> bool {
    a.kind.uuid == b.kind.uuid && a.position == b.position
}

#[test]
fn step_outside_domain_is_discarded() {
    let m = at(element(0, 1000, 5000), 499_000, 0, 0);
    let moved = m.apply_movement(Vector3d::new(1000, 0, 0));
    assert_eq!(moved.next_position, m.position);
    let back = m.apply_movement(Vector3d::new(-1000, 0, 0));
    assert_eq!(back.next_position, Vector3d::new(494_000, 0, 0));
}

#[test]
fn step_scales_direction_by_speed() {
    let m = at(element(0, 1000, 2500), 100, -200, 300);
    let moved = m.apply_movement(Vector3d::new(0, 600, -800));
    assert_eq!(moved.next_position, Vector3d::new(100, 1300, -1700));
    assert!(same(&moved.molecule, &m));
}

#[test]
fn random_direction_has_unit_length() {
    let mut rng = fastrand::Rng::with_seed(7);
    for _ in 0..100 {
        let d = Vector3d::get_random_unitary(&mut rng);
        let n2 = d.dot(&d);
        assert!(n2 <= 1_000_000);
        assert!(n2 >= 990_000);
    }
}

#[test]
fn random_positions_stay_inside() {
    let mut rng = fastrand::Rng::with_seed(11);
    let origin = Vector3d::new(0, 0, 0);
    for _ in 0..200 {
        let p = generate_random_position(&mut rng);
        assert!(p.distance_pow2(&origin) <= 400_000i128 * 400_000);
    }
}

#[test]
fn cells_are_floored() {
    assert_eq!(Vector3d::new(9_999, 0, -1).into_vectorint().x, 0);
    assert_eq!(Vector3d::new(9_999, 0, -1).into_vectorint().z, -1);
    assert_eq!(Vector3d::new(10_000, -10_000, -10_001).into_vectorint().x, 1);
    assert_eq!(Vector3d::new(10_000, -10_000, -10_001).into_vectorint().y, -1);
    assert_eq!(Vector3d::new(10_000, -10_000, -10_001).into_vectorint().z, -2);
}

#[test]
fn same_cell_shares_bucket_and_boundary_splits() {
    let e = element(0, 1000, 0);
    let a = unmoved(at(e, 100, 100, 100));
    let b = unmoved(at(e, 9_900, 5_000, 0));
    let c = unmoved(at(e, 10_100, 5_000, 0));
    let d = unmoved(at(e, 9_999, 200, 300));
    let buckets = group(&vec![a, c, b, d]);
    assert_eq!(buckets.len(), 2);
    assert_eq!(buckets[0].len(), 3);
    assert_eq!(buckets[1].len(), 1);
    assert_eq!(buckets[0][0].next_position, a.next_position);
    assert_eq!(buckets[0][1].next_position, b.next_position);
    assert_eq!(buckets[0][2].next_position, d.next_position);
    assert_eq!(buckets[1][0].next_position, c.next_position);
}

#[test]
fn pair_across_cell_boundary_is_not_detected() {
    let a_kind = element(0, 1000, 0);
    let b_kind = element(1, 1000, 0);
    let c_kind = element(2, 1000, 0);
    let mut reg = ReactionRegistry::new();
    reg.insert(
        CollidedElements::Bi(a_kind, b_kind),
        Outcome::One(vec![c_kind], Probability(PROB_ONE)),
    );
    let a = unmoved(at(a_kind, 9_500, 0, 0));
    let b = unmoved(at(b_kind, 10_500, 0, 0));
    assert!(matches!(a.test_collision(&b), CollidedMolecules::Bi(_, _)));
    let buckets = group(&vec![a, b]);
    assert_eq!(buckets.len(), 2);
    let mut left = Vec::new();
    for bucket in buckets {
        let n = bucket.len();
        left.extend(resolve_bucket(&reg, bucket, &vec![vec![0; n]; n]));
    }
    assert_eq!(left.len(), 2);
    assert_eq!(left[0].kind.uuid, 0);
    assert_eq!(left[1].kind.uuid, 1);
}

#[test]
fn tangent_molecules_collide() {
    let e = element(0, 1000, 0);
    let a = unmoved(at(e, 0, 0, 0));
    let b = unmoved(at(e, 2000, 0, 0));
    let c = unmoved(at(e, 2001, 0, 0));
    assert!(matches!(a.test_collision(&b), CollidedMolecules::Bi(_, _)));
    assert!(matches!(a.test_collision(&c), CollidedMolecules::Mono(_)));
}

#[test]
fn single_outcome_threshold() {
    let e = element(0, 1000, 0);
    let p = element(1, 1000, 0);
    let mut reg = ReactionRegistry::new();
    reg.insert(CollidedElements::Mono(e), Outcome::One(vec![p], Probability(5)));
    let m = unmoved(at(e, 10, 20, 30));
    let (out, fired) = reg.decide_with_roll(CollidedMolecules::Mono(m), 0);
    assert!(fired);
    assert_eq!(out.len(), 1);
    assert_eq!(out[0].kind.uuid, 1);
    assert_eq!(out[0].position, Vector3d::new(10, 20, 30));
    let (_, fired) = reg.decide_with_roll(CollidedMolecules::Mono(m), 4);
    assert!(fired);
    let (out, fired) = reg.decide_with_roll(CollidedMolecules::Mono(m), 5);
    assert!(!fired);
    assert_eq!(out[0].kind.uuid, 0);
    let (_, fired) = reg.decide_with_roll(CollidedMolecules::Mono(m), PROB_ONE - 1);
    assert!(!fired);
}

#[test]
fn double_outcome_thresholds_are_not_normalised() {
    let c = element(0, 1000, 0);
    let e = element(1, 1000, 0);
    let s = element(2, 1000, 0);
    let p = element(3, 1000, 0);
    let mut reg = ReactionRegistry::new();
    reg.insert(
        CollidedElements::Mono(c),
        Outcome::Two(
            (vec![e, s], Probability(700_000_000)),
            (vec![e, p], Probability(600_000_000)),
        ),
    );
    let m = unmoved(at(c, 0, 0, 0));
    let (out, fired) = reg.decide_with_roll(CollidedMolecules::Mono(m), 699_999_999);
    assert!(fired);
    assert_eq!((out[0].kind.uuid, out[1].kind.uuid), (1, 2));
    let (out, fired) = reg.decide_with_roll(CollidedMolecules::Mono(m), 700_000_000);
    assert!(fired);
    assert_eq!((out[0].kind.uuid, out[1].kind.uuid), (1, 3));
    let (out, fired) = reg.decide_with_roll(CollidedMolecules::Mono(m), PROB_ONE - 1);
    assert!(fired);
    assert_eq!(out[1].kind.uuid, 3);
    assert_eq!(out.len(), 2);
}

#[test]
fn failed_lone_trial_keeps_step_and_failed_pair_reverts() {
    let e = element(0, 1000, 1000);
    let reg = ReactionRegistry::new();
    let m = MovedMolecule { molecule: at(e, 0, 0, 0), next_position: Vector3d::new(600, 0, 0) };
    let (out, fired) = reg.decide_with_roll(CollidedMolecules::Mono(m), 0);
    assert!(!fired);
    assert_eq!(out.len(), 1);
    assert_eq!(out[0].position, Vector3d::new(600, 0, 0));
    let n = MovedMolecule { molecule: at(e, 2000, 0, 0), next_position: Vector3d::new(1400, 0, 0) };
    let (out, fired) = reg.decide_with_roll(CollidedMolecules::Bi(m, n), 0);
    assert!(!fired);
    assert_eq!(out.len(), 2);
    assert_eq!(out[0].position, Vector3d::new(0, 0, 0));
    assert_eq!(out[1].position, Vector3d::new(2000, 0, 0));
}

#[test]
fn counts_change_only_when_firing() {
    let a = element(0, 1000, 0);
    let b = element(1, 1000, 0);
    let c = element(2, 1000, 0);
    let d = element(3, 1000, 0);
    let mut reg = ReactionRegistry::new();
    reg.insert(
        CollidedElements::Bi(a, b),
        Outcome::One(vec![c, d, d], Probability(100)),
    );
    let ma = unmoved(at(a, 0, 0, 0));
    let mb = unmoved(at(b, 1000, 0, 0));
    let (out, fired) = reg.decide_with_roll(CollidedMolecules::Bi(ma, mb), 100);
    assert!(!fired);
    let kinds: Vec<u64> = out.iter().map(|m| m.kind.uuid).collect();
    assert_eq!(kinds, vec![0, 1]);
    let (out, fired) = reg.decide_with_roll(CollidedMolecules::Bi(ma, mb), 99);
    assert!(fired);
    let kinds: Vec<u64> = out.iter().map(|m| m.kind.uuid).collect();
    assert_eq!(kinds, vec![2, 3, 3]);
    assert!(out.iter().all(|m| m.position == Vector3d::new(500, 0, 0)));
}

#[test]
fn registry_key_is_ordered() {
    let a = element(0, 1000, 0);
    let b = element(1, 1000, 0);
    let c = element(2, 1000, 0);
    let mut reg = ReactionRegistry::new();
    reg.insert(CollidedElements::Bi(a, b), Outcome::One(vec![c], Probability(PROB_ONE)));
    assert!(reg.get(&CollidedElements::Bi(a, b)).is_some());
    assert!(reg.get(&CollidedElements::Bi(b, a)).is_none());
    assert!(reg.get(&CollidedElements::Mono(a)).is_none());
    reg.insert(CollidedElements::Bi(a, b), Outcome::One(vec![c, c], Probability(3)));
    match reg.get(&CollidedElements::Bi(a, b)) {
        Some(Outcome::One(r, p)) => {
            assert_eq!(r.len(), 2);
            assert_eq!(p.get(), 3);
        }
        _ => panic!("entry replaced"),
    }
}

#[test]
fn greedy_pairing_in_bucket_order() {
    let a = element(0, 1000, 0);
    let b = element(1, 1000, 0);
    let c = element(2, 1000, 0);
    let mut reg = ReactionRegistry::new();
    reg.insert(CollidedElements::Bi(a, b), Outcome::One(vec![c], Probability(PROB_ONE)));
    let bucket = vec![
        unmoved(at(a, 0, 0, 0)),
        unmoved(at(b, 1000, 0, 0)),
        unmoved(at(b, 0, 1000, 0)),
    ];
    let out = resolve_bucket(&reg, bucket, &vec![vec![0; 3]; 3]);
    assert_eq!(out.len(), 2);
    assert_eq!(out[0].kind.uuid, 2);
    assert_eq!(out[0].position, Vector3d::new(500, 0, 0));
    assert_eq!(out[1].kind.uuid, 1);
    assert_eq!(out[1].position, Vector3d::new(0, 1000, 0));
}

#[test]
fn failed_pair_cancels_both_steps_in_bucket() {
    let a = element(0, 1000, 1000);
    let b = element(1, 1000, 1000);
    let reg = ReactionRegistry::new();
    let ma = MovedMolecule { molecule: at(a, 0, 0, 0), next_position: Vector3d::new(300, 0, 0) };
    let mb = MovedMolecule { molecule: at(b, 2000, 0, 0), next_position: Vector3d::new(1500, 0, 0) };
    let out = resolve_bucket(&reg, vec![ma, mb], &vec![vec![0; 2]; 2]);
    assert_eq!(out.len(), 2);
    assert_eq!(out[0].position, Vector3d::new(0, 0, 0));
    assert_eq!(out[1].position, Vector3d::new(2000, 0, 0));
}

#[test]
fn one_step_binds_colliding_pair() {
    let a = element(0, 1000, 0);
    let b = element(1, 1000, 0);
    let c = element(2, 1000, 0);
    let mut reg = ReactionRegistry::new();
    reg.insert(CollidedElements::Bi(a, b), Outcome::One(vec![c], Probability(PROB_ONE)));
    // The list is reversed before pairing, so `a` is tested first.
    let mut molecules = vec![at(b, 1500, 0, 0), at(a, 0, 0, 0)];
    let mut rng = fastrand::Rng::with_seed(3);
    simulation(&reg, &mut molecules, &mut rng);
    assert_eq!(molecules.len(), 1);
    assert_eq!(molecules[0].kind.uuid, 2);
    assert_eq!(molecules[0].position, Vector3d::new(750, 0, 0));
}

#[test]
fn one_step_without_entry_keeps_pair_in_place() {
    let a = element(0, 1000, 100);
    let b = element(1, 1000, 100);
    let reg = ReactionRegistry::new();
    let mut molecules = vec![at(a, 5000, 5000, 5000), at(b, 6500, 5000, 5000)];
    let mut rng = fastrand::Rng::with_seed(5);
    simulation(&reg, &mut molecules, &mut rng);
    assert_eq!(molecules.len(), 2);
    let a_after = molecules.iter().find(|m| m.kind.uuid == 0).unwrap();
    let b_after = molecules.iter().find(|m| m.kind.uuid == 1).unwrap();
    assert_eq!(a_after.position, Vector3d::new(5000, 5000, 5000));
    assert_eq!(b_after.position, Vector3d::new(6500, 5000, 5000));
}

#[test]
fn probabilities_from_kinetics() {
    let (bind, back, release) = Probability::calc_probability(1000, 100_000).unwrap();
    assert_eq!(release.get(), 10_000_000);
    assert_eq!(back.get(), 1_000_000);
    assert_eq!(bind.get(), 24_550_600);
    let (bind, _, _) = Probability::calc_probability(2000, 250_000).unwrap();
    assert_eq!(bind.get(), 30_668_771);
    let (bind, back, release) = Probability::calc_probability(80_000, 300_000).unwrap();
    assert_eq!(bind.get(), PROB_ONE);
    assert_eq!(back.get(), 3_000_000);
    assert_eq!(release.get(), 30_000_000);
    assert!(Probability::calc_probability(1000, 10_000_001).is_none());
    assert!(Probability::calc_probability(0, 100_000).is_none());
    assert!(Probability::calc_probability(1, 100_000).is_none());
}

#[test]
fn probability_range() {
    assert_eq!(Probability::new(PROB_ONE), Some(Probability(PROB_ONE)));
    assert_eq!(Probability::new(0), Some(Probability(0)));
    assert_eq!(Probability::new(PROB_ONE + 1), None);
}

#[test]
fn board_counts_species_and_renders_csv() {
    let a = element(0, 1000, 0);
    let b = element(1, 1000, 0);
    let mut board = ValueBoard::new(vec!["A".to_string(), "B".to_string()]);
    assert_eq!(board.columns, vec!["A".to_string(), "B".to_string(), "time".to_string()]);
    let mols = vec![at(a, 0, 0, 0), at(b, 0, 0, 0), at(a, 1, 1, 1)];
    board.add_entry(&mols, 500);
    board.add_entry(&vec![], 1000);
    assert_eq!(board.rows, vec![vec![2, 1, 500], vec![0, 0, 1000]]);
    assert_eq!(board.convert_to_csv(), "A, B, time\n2, 1, 500\n0, 0, 1000");
}

#[test]
fn euclidean_distance_rounds_down() {
    let o = Vector3d::new(0, 0, 0);
    assert_eq!(o.distance(&Vector3d::new(3000, 4000, 0)), 5000);
    assert_eq!(o.distance(&Vector3d::new(1, 1, 0)), 1);
    assert_eq!(o.distance_pow2(&Vector3d::new(1, 1, 1)), 3);
    assert_eq!(Vector3d::new(1, 2, 3).dot(&Vector3d::new(4, -5, 6)), 12);
}
