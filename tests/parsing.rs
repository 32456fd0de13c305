use molecule_sim::brenda::{
    parse_eof, parse_float, parse_float_ranged, parse_identifier, parse_lparen,
    parse_solubes_and_results, parse_uint,
};
use molecule_sim::declarations::{
    Ast, DiameterDeclaration, Expression, InitDeclaration, Parsable, Reaction, SpeedDeclaration,
};
use molecule_sim::parser::{
    anychar, between_spaces, identifier, literal, natural_number, real_number, space0, space1, ParserInput,
    ParserSuccess,
};

#[test]
fn t_eof() {
    assert_eq!(
        parse_eof(ParserInput::new("")),
        Ok(ParserSuccess {
            content: (),
            next_input: ParserInput::new("")
        })
    )
}

#[test]
fn eof_rejects_trailing_text() {
    assert!(parse_eof(ParserInput::new("  x")).is_err());
    let r = parse_eof(ParserInput::new("  \n ")).unwrap();
    assert_eq!(r.next_input.content, "");
    assert_eq!((r.next_input.line, r.next_input.col), (1, 1));
}

#[test]
fn anychar_tracks_lines_and_columns() {
    let r = anychar(ParserInput::new("a\nb")).unwrap();
    assert_eq!(r.content, 'a');
    assert_eq!((r.next_input.line, r.next_input.col), (0, 1));
    let r = anychar(r.next_input).unwrap();
    assert_eq!(r.content, '\n');
    assert_eq!((r.next_input.line, r.next_input.col), (1, 0));
    assert_eq!(r.next_input.content, "b");
}

#[test]
fn anychar_fails_at_end_with_position() {
    let e = anychar(ParserInput::new("")).unwrap_err();
    assert!(e.error.contains("line 1, column 1"));
    assert!(e.error.contains("Unexpected end of file"));
}

#[test]
fn literal_matches_prefix_only() {
    let r = literal("init", ParserInput::new("init(A)")).unwrap();
    assert_eq!(r.content, "init");
    assert_eq!(r.next_input.content, "(A)");
    assert_eq!(r.next_input.col, 4);
    let e = literal("init", ParserInput::new("ini")).unwrap_err();
    assert!(e.error.contains("expected keyword init"));
}

#[test]
fn spaces_zero_and_one() {
    let r = space0(ParserInput::new("abc")).unwrap();
    assert_eq!(r.next_input.content, "abc");
    let r = space0(ParserInput::new(" \t abc")).unwrap();
    assert_eq!(r.next_input.content, "abc");
    assert!(space1(ParserInput::new("abc")).is_err());
    assert_eq!(space1(ParserInput::new("  x")).unwrap().next_input.content, "x");
}

#[test]
fn identifiers_bare_and_quoted() {
    let r = identifier(ParserInput::new("EA31+")).unwrap();
    assert_eq!(r.content, "EA31");
    assert_eq!(r.next_input.content, "+");
    let r = identifier(ParserInput::new("\"EA+  45 ()\":i->p;")).unwrap();
    assert_eq!(r.content, "EA+  45 ()");
    assert_eq!(r.next_input.content, ":i->p;");
    assert!(identifier(ParserInput::new("3A")).is_err());
    assert!(identifier(ParserInput::new("\"\"")).is_err());
    assert!(identifier(ParserInput::new("\"open")).is_err());
}

#[test]
fn natural_numbers() {
    let r = natural_number(ParserInput::new("1234;")).unwrap();
    assert_eq!(r.content, 1234);
    assert_eq!(r.next_input.content, ";");
    assert_eq!(natural_number(ParserInput::new("4294967295")).unwrap().content, u32::MAX);
    assert!(natural_number(ParserInput::new("4294967296")).is_err());
    assert!(natural_number(ParserInput::new("x1")).is_err());
}

#[test]
fn real_numbers_in_thousandths() {
    assert_eq!(real_number(ParserInput::new("2.12 ;")).unwrap().content, 2120);
    assert_eq!(real_number(ParserInput::new("0.7")).unwrap().content, 700);
    assert_eq!(real_number(ParserInput::new(".5")).unwrap().content, 500);
    assert_eq!(real_number(ParserInput::new("3.")).unwrap().content, 3000);
    assert_eq!(real_number(ParserInput::new("12")).unwrap().content, 12000);
    assert_eq!(real_number(ParserInput::new("1.23456")).unwrap().content, 1234);
    assert!(real_number(ParserInput::new(".")).is_err());
    assert!(real_number(ParserInput::new("1.2.3")).is_err());
    assert!(real_number(ParserInput::new("abc")).is_err());
}

#[test]
fn spaced_tokens() {
    let r = parse_lparen(ParserInput::new("  (  E23")).unwrap();
    assert_eq!(r.content, "(");
    assert_eq!(r.next_input.content, "E23");
    let r = parse_identifier(ParserInput::new("   E23 ) =")).unwrap();
    assert_eq!(r.content, "E23");
    assert_eq!(r.next_input.content, ") =");
    assert_eq!(parse_uint(ParserInput::new(" 42 ;")).unwrap().content, 42);
    assert_eq!(parse_float(ParserInput::new("   2.12  ;")).unwrap().content, 2120);
    assert_eq!(
        parse_float_ranged(0, 1000, ParserInput::new(" 0.7 ;")).unwrap().content,
        700
    );
    assert!(parse_float_ranged(0, 1000, ParserInput::new(" 1.5 ;")).is_err());
}

#[test]
fn plus_separated_names() {
    let r = parse_solubes_and_results(ParserInput::new("A + B+C;")).unwrap();
    assert_eq!(r.content, vec!["A".to_string(), "B".to_string(), "C".to_string()]);
    assert_eq!(r.next_input.content, ";");
    let r = parse_solubes_and_results(ParserInput::new("A;")).unwrap();
    assert_eq!(r.content, vec!["A".to_string()]);
    assert!(parse_solubes_and_results(ParserInput::new("A + ;")).is_err());
}

#[test]
fn t_speed() {
    let r = SpeedDeclaration::parse(ParserInput::new("vitesse(    E23 ) =           2.12  ; hello")).unwrap();
    assert_eq!(r.content.identifier, "E23");
    assert_eq!(r.content.speed, 2120);
    assert_eq!(r.next_input.content, "hello");
}

#[test]
fn t_diameter() {
    let r = DiameterDeclaration::parse(ParserInput::new("diametre(    E23 ) =           0.7  ; hello")).unwrap();
    assert_eq!(r.content.identifier, "E23");
    assert_eq!(r.content.diameter, 700);
    assert!(DiameterDeclaration::parse(ParserInput::new("diametre(E23) = 2;")).is_err());
}

#[test]
fn init_and_reaction_declarations() {
    let r = InitDeclaration::parse(ParserInput::new("init(A) = 10;")).unwrap();
    assert_eq!(
        r.content,
        InitDeclaration {
            identifier: "A".to_string(),
            number: 10
        }
    );
    let r = Reaction::parse(ParserInput::new("E : S -> P | 2 uN - 250 uN ;")).unwrap();
    assert_eq!(r.content.enzhym, "E");
    assert_eq!(r.content.solubes, "S");
    assert_eq!(r.content.results, "P");
    assert_eq!(r.content.km, 2000);
    assert_eq!(r.content.kcat, 250000);
}

#[test]
fn whole_description() {
    let text = "E : S -> P | 2 uN - 250 uN ;\nvitesse(E) = 0.5;\ninit(E) = 3;\ninit(S) = 4;\n";
    let ast = Ast::parse(ParserInput::new(text)).unwrap().content;
    assert_eq!(ast.0.len(), 4);
    assert!(matches!(ast.0[0], Expression::Reaction(_)));
    assert!(matches!(ast.0[1], Expression::SpeedDeclaration(_)));
    assert!(matches!(ast.0[3], Expression::InitDeclaration(_)));
    assert!(Ast::parse(ParserInput::new("init(E) = 3; junk")).is_err());
    assert!(Ast::parse(ParserInput::new("  ")).is_err());
}

#[test]
fn between_spaces_wraps_any_parser() {
    let r = between_spaces(|i| identifier(i), ParserInput::new("  abc  ;")).unwrap();
    assert_eq!(r.content, "abc");
    assert_eq!(r.next_input.content, ";");
    assert_eq!(r.next_input.col, 7);
    assert!(between_spaces(|i| natural_number(i), ParserInput::new("  x")).is_err());
}
