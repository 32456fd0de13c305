use molecule_sim::declarations::{Ast, Expression, Parsable, SpeedDeclaration};
use molecule_sim::environment::{ConfigError, Environment, IdElementTable};
use molecule_sim::parser::ParserInput;
use molecule_sim::reaction_registry::{CollidedElements, Outcome};
use molecule_sim::simulation::run;

fn declarations(text: &str) -> Vec<Expression> {
    Ast::parse(ParserInput::new(text)).unwrap().content.0
}

#[test]
fn table_assigns_identities_in_order() {
    let mut table = IdElementTable::new();
    let a = table.insert_by_name("A".to_string());
    let b = table.insert_by_speed("B".to_string(), 2500);
    let a2 = table.insert_by_diameter("A".to_string(), 700);
    assert_eq!((a.uuid, a.radius, a.speed), (0, 1000, 1000));
    assert_eq!((b.uuid, b.radius, b.speed), (1, 1000, 2500));
    assert_eq!((a2.uuid, a2.radius, a2.speed), (0, 350, 1000));
    assert_eq!(table.find(&"B".to_string()), Some(1));
    assert_eq!(table.find(&"C".to_string()), None);
}

#[test]
fn environment_from_description() {
    let text = "E : S -> P | 2 uN - 250 uN ;\nvitesse(E) = 0.5;\ndiametre(S) = 0.4;\ninit(E) = 3;\ninit(S) = 4;\n";
    let mut rng = fastrand::Rng::with_seed(1);
    let env = Environment::from_declarations(&declarations(text), &mut rng).unwrap();
    assert_eq!(env.molecules.len(), 7);
    assert_eq!(
        env.board.columns,
        vec!["E".to_string(), "S".to_string(), "P".to_string(), "E--S".to_string(), "time".to_string()]
    );
    let e = env.molecules[0].kind;
    let s = env.molecules[3].kind;
    assert_eq!((e.uuid, e.speed, e.radius), (0, 500, 1000));
    assert_eq!((s.uuid, s.speed, s.radius), (1, 1000, 200));
    match env.registry.get(&CollidedElements::Bi(e, s)) {
        Some(Outcome::One(products, p)) => {
            assert_eq!(products.len(), 1);
            assert_eq!(products[0].uuid, 3);
            assert_eq!(p.get(), 30_668_771);
        }
        _ => panic!("binding entry missing"),
    }
    let complex = molecule_sim::element::Element { uuid: 3, radius: 1000, speed: 1000 };
    match env.registry.get(&CollidedElements::Mono(complex)) {
        Some(Outcome::Two((reverse, back), (forward, release))) => {
            assert_eq!((reverse[0].uuid, reverse[1].uuid), (0, 1));
            assert_eq!((forward[0].uuid, forward[1].uuid), (0, 2));
            assert_eq!(back.get(), 2_500_000);
            assert_eq!(release.get(), 25_000_000);
        }
        _ => panic!("decomposition entry missing"),
    }
}

#[test]
fn invalid_kinetics_are_reported() {
    let text = "init(A) = 1;\nE : S -> P | 2 uN - 20000 uN ;\n";
    let mut rng = fastrand::Rng::with_seed(1);
    let r = Environment::from_declarations(&declarations(text), &mut rng);
    assert!(matches!(r, Err(ConfigError::ProbabilityOutOfRange(1))));
}

#[test]
fn oversized_speed_is_reported() {
    let decl = SpeedDeclaration { identifier: "A".to_string(), speed: 1 << 40 };
    let mut rng = fastrand::Rng::with_seed(1);
    let r = Environment::from_declarations(&vec![Expression::SpeedDeclaration(decl)], &mut rng);
    assert!(matches!(r, Err(ConfigError::SpeedOutOfRange(0))));
}

#[test]
fn run_samples_at_fixed_intervals() {
    let text = "init(A) = 5;\ninit(B) = 2;\n";
    let mut rng = fastrand::Rng::with_seed(9);
    let env = Environment::from_declarations(&declarations(text), &mut rng).unwrap();
    let board = run(env, 10, 3, &mut rng);
    assert_eq!(board.rows.len(), 3);
    assert_eq!(board.rows[0], vec![5, 2, 3]);
    assert_eq!(board.rows[1], vec![5, 2, 6]);
    assert_eq!(board.rows[2], vec![5, 2, 9]);
}
