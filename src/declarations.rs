//! The declarations of the reaction description language.
use vstd::prelude::*;

use crate::brenda::{
    parse_arrow, parse_colon, parse_diameter, parse_equal, parse_float, parse_float_ranged,
    parse_identifier, parse_init, parse_lparen, parse_pipe, parse_dash, parse_rparen,
    parse_semicolon, parse_speed, parse_uN, parse_uint, spaced_fixed, spaced_fraction,
    spaced_ident, spaced_kw, spaced_uint, parse_eof,
};
use crate::parser::{advanced, lemma_advanced_trans, ParserInput, ParserResult, ParserSuccess};

verus! {

/// A value that can be read from the start of an input.
pub trait Parsable: Sized {
    fn parse<'a>(text: ParserInput<'a>) -> ParserResult<'a, Self>;
}

/// `vitesse ( name ) = speed ;`: the name, the speed in thousandths and the length.
#[verifier::opaque]
pub open spec fn speed_decl_of(s0: Seq<char>) -> Option<(Seq<char>, u64, nat)> {
    let t0 = spaced_kw(s0, "vitesse"@);
    let n0 = t0->0;
    let s1 = s0.skip(n0 as int);
    let t1 = spaced_kw(s1, "("@);
    let n1 = t1->0;
    let s2 = s1.skip(n1 as int);
    let t2 = spaced_ident(s2);
    let n2 = (t2->0).1;
    let s3 = s2.skip(n2 as int);
    let t3 = spaced_kw(s3, ")"@);
    let n3 = t3->0;
    let s4 = s3.skip(n3 as int);
    let t4 = spaced_kw(s4, "="@);
    let n4 = t4->0;
    let s5 = s4.skip(n4 as int);
    let t5 = spaced_fixed(s5);
    let n5 = (t5->0).1;
    let s6 = s5.skip(n5 as int);
    let t6 = spaced_kw(s6, ";"@);
    let n6 = t6->0;
    if t0 is Some
        && t1 is Some
        && t2 is Some
        && t3 is Some
        && t4 is Some
        && t5 is Some
        && t6 is Some
    {
        Some(((t2->0).0, (t5->0).0, (n0 + n1 + n2 + n3 + n4 + n5 + n6) as nat))
    } else {
        None
    }
}

/// `diametre ( name ) = diameter ;`, the diameter between zero and one: the name, the diameter in
/// thousandths and the length.
#[verifier::opaque]
pub open spec fn diameter_decl_of(s0: Seq<char>) -> Option<(Seq<char>, u64, nat)> {
    let t0 = spaced_kw(s0, "diametre"@);
    let n0 = t0->0;
    let s1 = s0.skip(n0 as int);
    let t1 = spaced_kw(s1, "("@);
    let n1 = t1->0;
    let s2 = s1.skip(n1 as int);
    let t2 = spaced_ident(s2);
    let n2 = (t2->0).1;
    let s3 = s2.skip(n2 as int);
    let t3 = spaced_kw(s3, ")"@);
    let n3 = t3->0;
    let s4 = s3.skip(n3 as int);
    let t4 = spaced_kw(s4, "="@);
    let n4 = t4->0;
    let s5 = s4.skip(n4 as int);
    let t5 = spaced_fraction(s5);
    let n5 = (t5->0).1;
    let s6 = s5.skip(n5 as int);
    let t6 = spaced_kw(s6, ";"@);
    let n6 = t6->0;
    if t0 is Some
        && t1 is Some
        && t2 is Some
        && t3 is Some
        && t4 is Some
        && t5 is Some
        && t6 is Some
    {
        Some(((t2->0).0, (t5->0).0, (n0 + n1 + n2 + n3 + n4 + n5 + n6) as nat))
    } else {
        None
    }
}

/// `init ( name ) = count ;`: the name, the count and the length.
#[verifier::opaque]
pub open spec fn init_decl_of(s0: Seq<char>) -> Option<(Seq<char>, u32, nat)> {
    let t0 = spaced_kw(s0, "init"@);
    let n0 = t0->0;
    let s1 = s0.skip(n0 as int);
    let t1 = spaced_kw(s1, "("@);
    let n1 = t1->0;
    let s2 = s1.skip(n1 as int);
    let t2 = spaced_ident(s2);
    let n2 = (t2->0).1;
    let s3 = s2.skip(n2 as int);
    let t3 = spaced_kw(s3, ")"@);
    let n3 = t3->0;
    let s4 = s3.skip(n3 as int);
    let t4 = spaced_kw(s4, "="@);
    let n4 = t4->0;
    let s5 = s4.skip(n4 as int);
    let t5 = spaced_uint(s5);
    let n5 = (t5->0).1;
    let s6 = s5.skip(n5 as int);
    let t6 = spaced_kw(s6, ";"@);
    let n6 = t6->0;
    if t0 is Some
        && t1 is Some
        && t2 is Some
        && t3 is Some
        && t4 is Some
        && t5 is Some
        && t6 is Some
    {
        Some(((t2->0).0, (t5->0).0, (n0 + n1 + n2 + n3 + n4 + n5 + n6) as nat))
    } else {
        None
    }
}

/// `enzyme : substrate -> product | km uN - kcat uN ;`: the three names, `km` and `kcat` in
/// thousandths, and the length.
#[verifier::opaque]
pub open spec fn reaction_of(s0: Seq<char>) -> Option<(Seq<char>, Seq<char>, Seq<char>, u64, u64, nat)> {
    let t0 = spaced_ident(s0);
    let n0 = (t0->0).1;
    let s1 = s0.skip(n0 as int);
    let t1 = spaced_kw(s1, ":"@);
    let n1 = t1->0;
    let s2 = s1.skip(n1 as int);
    let t2 = spaced_ident(s2);
    let n2 = (t2->0).1;
    let s3 = s2.skip(n2 as int);
    let t3 = spaced_kw(s3, "->"@);
    let n3 = t3->0;
    let s4 = s3.skip(n3 as int);
    let t4 = spaced_ident(s4);
    let n4 = (t4->0).1;
    let s5 = s4.skip(n4 as int);
    let t5 = spaced_kw(s5, "|"@);
    let n5 = t5->0;
    let s6 = s5.skip(n5 as int);
    let t6 = spaced_fixed(s6);
    let n6 = (t6->0).1;
    let s7 = s6.skip(n6 as int);
    let t7 = spaced_kw(s7, "uN"@);
    let n7 = t7->0;
    let s8 = s7.skip(n7 as int);
    let t8 = spaced_kw(s8, "-"@);
    let n8 = t8->0;
    let s9 = s8.skip(n8 as int);
    let t9 = spaced_fixed(s9);
    let n9 = (t9->0).1;
    let s10 = s9.skip(n9 as int);
    let t10 = spaced_kw(s10, "uN"@);
    let n10 = t10->0;
    let s11 = s10.skip(n10 as int);
    let t11 = spaced_kw(s11, ";"@);
    let n11 = t11->0;
    if t0 is Some
        && t1 is Some
        && t2 is Some
        && t3 is Some
        && t4 is Some
        && t5 is Some
        && t6 is Some
        && t7 is Some
        && t8 is Some
        && t9 is Some
        && t10 is Some
        && t11 is Some
    {
        Some(((t0->0).0, (t2->0).0, (t4->0).0, (t6->0).0, (t9->0).0, (n0 + n1 + n2 + n3 + n4 + n5 + n6 + n7 + n8 + n9 + n10 + n11) as nat))
    } else {
        None
    }
}
/// Declares the speed of a species, in thousandths.
#[derive(Debug, PartialEq)]
pub struct SpeedDeclaration {
    pub identifier: String,
    pub speed: u64,
}

impl SpeedDeclaration {
    pub fn parse_declaration<'a>(text: ParserInput<'a>) -> (r: ParserResult<'a, Self>)
        ensures
            r is Ok <==> speed_decl_of(text.content@) is Some,
            r matches Ok(s) ==> {
                let d = speed_decl_of(text.content@)->0;
                &&& s.content.identifier@ == d.0
                &&& s.content.speed == d.1
                &&& advanced(text, d.2 as int, s.next_input)
            },
    {
        let input = text;
        proof {
            reveal(speed_decl_of);
        }
        let a0 = parse_speed(input)?;
        let ghost n0: int = (spaced_kw(input.content@, "vitesse"@)->0) as int;
        let a1 = parse_lparen(a0.next_input)?;
        let ghost n1: int = (spaced_kw(a0.next_input.content@, "("@)->0) as int;
        proof {
            lemma_advanced_trans(input, n0, a0.next_input, n1, a1.next_input);
        }
        let a2 = parse_identifier(a1.next_input)?;
        let ghost n2: int = ((spaced_ident(a1.next_input.content@)->0).1) as int;
        proof {
            lemma_advanced_trans(input, n0 + n1, a1.next_input, n2, a2.next_input);
        }
        let a3 = parse_rparen(a2.next_input)?;
        let ghost n3: int = (spaced_kw(a2.next_input.content@, ")"@)->0) as int;
        proof {
            lemma_advanced_trans(input, n0 + n1 + n2, a2.next_input, n3, a3.next_input);
        }
        let a4 = parse_equal(a3.next_input)?;
        let ghost n4: int = (spaced_kw(a3.next_input.content@, "="@)->0) as int;
        proof {
            lemma_advanced_trans(input, n0 + n1 + n2 + n3, a3.next_input, n4, a4.next_input);
        }
        let a5 = parse_float(a4.next_input)?;
        let ghost n5: int = ((spaced_fixed(a4.next_input.content@)->0).1) as int;
        proof {
            lemma_advanced_trans(input, n0 + n1 + n2 + n3 + n4, a4.next_input, n5, a5.next_input);
        }
        let a6 = parse_semicolon(a5.next_input)?;
        let ghost n6: int = (spaced_kw(a5.next_input.content@, ";"@)->0) as int;
        proof {
            lemma_advanced_trans(input, n0 + n1 + n2 + n3 + n4 + n5, a5.next_input, n6, a6.next_input);
        }
        proof {
            assert(speed_decl_of(text.content@) is Some);
        }
        Ok(ParserSuccess { content: SpeedDeclaration { identifier: a2.content, speed: a5.content }, next_input: a6.next_input })
    }
}

impl Parsable for SpeedDeclaration {
    fn parse<'a>(text: ParserInput<'a>) -> ParserResult<'a, Self> {
        Self::parse_declaration(text)
    }
}

/// Declares the diameter of a species, in thousandths.
#[derive(Debug, PartialEq)]
pub struct DiameterDeclaration {
    pub identifier: String,
    pub diameter: u64,
}

impl DiameterDeclaration {
    pub fn parse_declaration<'a>(text: ParserInput<'a>) -> (r: ParserResult<'a, Self>)
        ensures
            r is Ok <==> diameter_decl_of(text.content@) is Some,
            r matches Ok(s) ==> {
                let d = diameter_decl_of(text.content@)->0;
                &&& s.content.identifier@ == d.0
                &&& s.content.diameter == d.1
                &&& advanced(text, d.2 as int, s.next_input)
            },
    {
        let input = text;
        proof {
            reveal(diameter_decl_of);
        }
        let a0 = parse_diameter(input)?;
        let ghost n0: int = (spaced_kw(input.content@, "diametre"@)->0) as int;
        let a1 = parse_lparen(a0.next_input)?;
        let ghost n1: int = (spaced_kw(a0.next_input.content@, "("@)->0) as int;
        proof {
            lemma_advanced_trans(input, n0, a0.next_input, n1, a1.next_input);
        }
        let a2 = parse_identifier(a1.next_input)?;
        let ghost n2: int = ((spaced_ident(a1.next_input.content@)->0).1) as int;
        proof {
            lemma_advanced_trans(input, n0 + n1, a1.next_input, n2, a2.next_input);
        }
        let a3 = parse_rparen(a2.next_input)?;
        let ghost n3: int = (spaced_kw(a2.next_input.content@, ")"@)->0) as int;
        proof {
            lemma_advanced_trans(input, n0 + n1 + n2, a2.next_input, n3, a3.next_input);
        }
        let a4 = parse_equal(a3.next_input)?;
        let ghost n4: int = (spaced_kw(a3.next_input.content@, "="@)->0) as int;
        proof {
            lemma_advanced_trans(input, n0 + n1 + n2 + n3, a3.next_input, n4, a4.next_input);
        }
        let a5 = parse_float_ranged(0, 1000, a4.next_input)?;
        let ghost n5: int = ((spaced_fixed(a4.next_input.content@)->0).1) as int;
        proof {
            lemma_advanced_trans(input, n0 + n1 + n2 + n3 + n4, a4.next_input, n5, a5.next_input);
        }
        let a6 = parse_semicolon(a5.next_input)?;
        let ghost n6: int = (spaced_kw(a5.next_input.content@, ";"@)->0) as int;
        proof {
            lemma_advanced_trans(input, n0 + n1 + n2 + n3 + n4 + n5, a5.next_input, n6, a6.next_input);
        }
        proof {
            assert(diameter_decl_of(text.content@) is Some);
        }
        Ok(ParserSuccess { content: DiameterDeclaration { identifier: a2.content, diameter: a5.content }, next_input: a6.next_input })
    }
}

impl Parsable for DiameterDeclaration {
    fn parse<'a>(text: ParserInput<'a>) -> ParserResult<'a, Self> {
        Self::parse_declaration(text)
    }
}

/// Declares how many molecules of a species there are at the start.
#[derive(Debug, PartialEq)]
pub struct InitDeclaration {
    pub identifier: String,
    pub number: u32,
}

impl InitDeclaration {
    pub fn parse_declaration<'a>(text: ParserInput<'a>) -> (r: ParserResult<'a, Self>)
        ensures
            r is Ok <==> init_decl_of(text.content@) is Some,
            r matches Ok(s) ==> {
                let d = init_decl_of(text.content@)->0;
                &&& s.content.identifier@ == d.0
                &&& s.content.number == d.1
                &&& advanced(text, d.2 as int, s.next_input)
            },
    {
        let input = text;
        proof {
            reveal(init_decl_of);
        }
        let a0 = parse_init(input)?;
        let ghost n0: int = (spaced_kw(input.content@, "init"@)->0) as int;
        let a1 = parse_lparen(a0.next_input)?;
        let ghost n1: int = (spaced_kw(a0.next_input.content@, "("@)->0) as int;
        proof {
            lemma_advanced_trans(input, n0, a0.next_input, n1, a1.next_input);
        }
        let a2 = parse_identifier(a1.next_input)?;
        let ghost n2: int = ((spaced_ident(a1.next_input.content@)->0).1) as int;
        proof {
            lemma_advanced_trans(input, n0 + n1, a1.next_input, n2, a2.next_input);
        }
        let a3 = parse_rparen(a2.next_input)?;
        let ghost n3: int = (spaced_kw(a2.next_input.content@, ")"@)->0) as int;
        proof {
            lemma_advanced_trans(input, n0 + n1 + n2, a2.next_input, n3, a3.next_input);
        }
        let a4 = parse_equal(a3.next_input)?;
        let ghost n4: int = (spaced_kw(a3.next_input.content@, "="@)->0) as int;
        proof {
            lemma_advanced_trans(input, n0 + n1 + n2 + n3, a3.next_input, n4, a4.next_input);
        }
        let a5 = parse_uint(a4.next_input)?;
        let ghost n5: int = ((spaced_uint(a4.next_input.content@)->0).1) as int;
        proof {
            lemma_advanced_trans(input, n0 + n1 + n2 + n3 + n4, a4.next_input, n5, a5.next_input);
        }
        let a6 = parse_semicolon(a5.next_input)?;
        let ghost n6: int = (spaced_kw(a5.next_input.content@, ";"@)->0) as int;
        proof {
            lemma_advanced_trans(input, n0 + n1 + n2 + n3 + n4 + n5, a5.next_input, n6, a6.next_input);
        }
        proof {
            assert(init_decl_of(text.content@) is Some);
        }
        Ok(ParserSuccess { content: InitDeclaration { identifier: a2.content, number: a5.content }, next_input: a6.next_input })
    }
}

impl Parsable for InitDeclaration {
    fn parse<'a>(text: ParserInput<'a>) -> ParserResult<'a, Self> {
        Self::parse_declaration(text)
    }
}

/// Declares that an enzyme turns a substrate into a product, with its Michaelis constant and
/// turnover number in thousandths.
#[derive(Debug, PartialEq)]
pub struct Reaction {
    pub enzhym: String,
    pub solubes: String,
    pub results: String,
    pub km: u64,
    pub kcat: u64,
}

impl Reaction {
    pub fn parse_declaration<'a>(text: ParserInput<'a>) -> (r: ParserResult<'a, Self>)
        ensures
            r is Ok <==> reaction_of(text.content@) is Some,
            r matches Ok(s) ==> {
                let d = reaction_of(text.content@)->0;
                &&& s.content.enzhym@ == d.0
                &&& s.content.solubes@ == d.1
                &&& s.content.results@ == d.2
                &&& s.content.km == d.3
                &&& s.content.kcat == d.4
                &&& advanced(text, d.5 as int, s.next_input)
            },
    {
        let input = text;
        proof {
            reveal(reaction_of);
        }
        let a0 = parse_identifier(input)?;
        let ghost n0: int = ((spaced_ident(input.content@)->0).1) as int;
        let a1 = parse_colon(a0.next_input)?;
        let ghost n1: int = (spaced_kw(a0.next_input.content@, ":"@)->0) as int;
        proof {
            lemma_advanced_trans(input, n0, a0.next_input, n1, a1.next_input);
        }
        let a2 = parse_identifier(a1.next_input)?;
        let ghost n2: int = ((spaced_ident(a1.next_input.content@)->0).1) as int;
        proof {
            lemma_advanced_trans(input, n0 + n1, a1.next_input, n2, a2.next_input);
        }
        let a3 = parse_arrow(a2.next_input)?;
        let ghost n3: int = (spaced_kw(a2.next_input.content@, "->"@)->0) as int;
        proof {
            lemma_advanced_trans(input, n0 + n1 + n2, a2.next_input, n3, a3.next_input);
        }
        let a4 = parse_identifier(a3.next_input)?;
        let ghost n4: int = ((spaced_ident(a3.next_input.content@)->0).1) as int;
        proof {
            lemma_advanced_trans(input, n0 + n1 + n2 + n3, a3.next_input, n4, a4.next_input);
        }
        let a5 = parse_pipe(a4.next_input)?;
        let ghost n5: int = (spaced_kw(a4.next_input.content@, "|"@)->0) as int;
        proof {
            lemma_advanced_trans(input, n0 + n1 + n2 + n3 + n4, a4.next_input, n5, a5.next_input);
        }
        let a6 = parse_float(a5.next_input)?;
        let ghost n6: int = ((spaced_fixed(a5.next_input.content@)->0).1) as int;
        proof {
            lemma_advanced_trans(input, n0 + n1 + n2 + n3 + n4 + n5, a5.next_input, n6, a6.next_input);
        }
        let a7 = parse_uN(a6.next_input)?;
        let ghost n7: int = (spaced_kw(a6.next_input.content@, "uN"@)->0) as int;
        proof {
            lemma_advanced_trans(input, n0 + n1 + n2 + n3 + n4 + n5 + n6, a6.next_input, n7, a7.next_input);
        }
        let a8 = parse_dash(a7.next_input)?;
        let ghost n8: int = (spaced_kw(a7.next_input.content@, "-"@)->0) as int;
        proof {
            lemma_advanced_trans(input, n0 + n1 + n2 + n3 + n4 + n5 + n6 + n7, a7.next_input, n8, a8.next_input);
        }
        let a9 = parse_float(a8.next_input)?;
        let ghost n9: int = ((spaced_fixed(a8.next_input.content@)->0).1) as int;
        proof {
            lemma_advanced_trans(input, n0 + n1 + n2 + n3 + n4 + n5 + n6 + n7 + n8, a8.next_input, n9, a9.next_input);
        }
        let a10 = parse_uN(a9.next_input)?;
        let ghost n10: int = (spaced_kw(a9.next_input.content@, "uN"@)->0) as int;
        proof {
            lemma_advanced_trans(input, n0 + n1 + n2 + n3 + n4 + n5 + n6 + n7 + n8 + n9, a9.next_input, n10, a10.next_input);
        }
        let a11 = parse_semicolon(a10.next_input)?;
        let ghost n11: int = (spaced_kw(a10.next_input.content@, ";"@)->0) as int;
        proof {
            lemma_advanced_trans(input, n0 + n1 + n2 + n3 + n4 + n5 + n6 + n7 + n8 + n9 + n10, a10.next_input, n11, a11.next_input);
        }
        proof {
            assert(reaction_of(text.content@) is Some);
        }
        Ok(ParserSuccess { content: Reaction { enzhym: a0.content, solubes: a2.content, results: a4.content, km: a6.content, kcat: a9.content }, next_input: a11.next_input })
    }
}

impl Parsable for Reaction {
    fn parse<'a>(text: ParserInput<'a>) -> ParserResult<'a, Self> {
        Self::parse_declaration(text)
    }
}

/// One declaration of any kind.
#[derive(Debug, PartialEq)]
pub enum Expression {
    Reaction(Reaction),
    SpeedDeclaration(SpeedDeclaration),
    InitDeclaration(InitDeclaration),
    DiameterDeclaration(DiameterDeclaration),
}

/// The length of the declaration at the start of `s`, tried as a reaction,
/// a speed, an initial count and a diameter, in that order.
pub open spec fn expression_len(s: Seq<char>) -> Option<nat> {
    if reaction_of(s) is Some {
        Some((reaction_of(s)->0).5)
    } else if speed_decl_of(s) is Some {
        Some((speed_decl_of(s)->0).2)
    } else if init_decl_of(s) is Some {
        Some((init_decl_of(s)->0).2)
    } else if diameter_decl_of(s) is Some {
        Some((diameter_decl_of(s)->0).2)
    } else {
        None
    }
}

/// The number of declarations that follow one another from the start of
/// `s`, and the length they take.
pub open spec fn expressions_of(s: Seq<char>) -> (nat, nat)
    decreases s.len(),
{
    match expression_len(s) {
        Some(n) => if 0 < n <= s.len() {
            let (count, len) = expressions_of(s.skip(n as int));
            (count + 1, n + len)
        } else {
            (0, 0)
        },
        None => (0, 0),
    }
}

impl Expression {
    pub fn parse_expression<'a>(text: ParserInput<'a>) -> (r: ParserResult<'a, Self>)
        ensures
            r is Ok <==> expression_len(text.content@) is Some,
            r matches Ok(s) ==> advanced(text, expression_len(text.content@)->0 as int, s.next_input),
            r matches Ok(s) ==> match s.content {
                Expression::Reaction(x) => {
                    let d = reaction_of(text.content@)->0;
                    &&& reaction_of(text.content@) is Some
                    &&& x.enzhym@ == d.0 && x.solubes@ == d.1 && x.results@ == d.2
                    &&& x.km == d.3 && x.kcat == d.4
                },
                Expression::SpeedDeclaration(x) => {
                    let d = speed_decl_of(text.content@)->0;
                    &&& reaction_of(text.content@) is None
                    &&& speed_decl_of(text.content@) is Some
                    &&& x.identifier@ == d.0 && x.speed == d.1
                },
                Expression::InitDeclaration(x) => {
                    let d = init_decl_of(text.content@)->0;
                    &&& reaction_of(text.content@) is None
                    &&& speed_decl_of(text.content@) is None
                    &&& init_decl_of(text.content@) is Some
                    &&& x.identifier@ == d.0 && x.number == d.1
                },
                Expression::DiameterDeclaration(x) => {
                    let d = diameter_decl_of(text.content@)->0;
                    &&& reaction_of(text.content@) is None
                    &&& speed_decl_of(text.content@) is None
                    &&& init_decl_of(text.content@) is None
                    &&& diameter_decl_of(text.content@) is Some
                    &&& x.identifier@ == d.0 && x.diameter == d.1
                },
            },
    {
        match Reaction::parse_declaration(text) {
            Ok(c) => {
                return Ok(ParserSuccess { content: Expression::Reaction(c.content), next_input: c.next_input });
            },
            Err(_) => {},
        }
        match SpeedDeclaration::parse_declaration(text) {
            Ok(c) => {
                return Ok(
                    ParserSuccess { content: Expression::SpeedDeclaration(c.content), next_input: c.next_input },
                );
            },
            Err(_) => {},
        }
        match InitDeclaration::parse_declaration(text) {
            Ok(c) => {
                return Ok(
                    ParserSuccess { content: Expression::InitDeclaration(c.content), next_input: c.next_input },
                );
            },
            Err(_) => {},
        }
        let c = DiameterDeclaration::parse_declaration(text)?;
        Ok(ParserSuccess { content: Expression::DiameterDeclaration(c.content), next_input: c.next_input })
    }
}

impl Parsable for Expression {
    fn parse<'a>(text: ParserInput<'a>) -> ParserResult<'a, Self> {
        Self::parse_expression(text)
    }
}

/// A whole description: declarations, at least one, up to the end of the
/// text.
#[derive(Debug, PartialEq)]
pub struct Ast(pub Vec<Expression>);

impl Ast {
    pub fn parse_text<'a>(text: ParserInput<'a>) -> (r: ParserResult<'a, Self>)
        ensures
            r is Ok <==> {
                let (count, len) = expressions_of(text.content@);
                let rest = text.content@.skip(len as int);
                count >= 1 && crate::parser::ws_len(rest) == rest.len()
            },
            r matches Ok(s) ==> s.content.0@.len() == expressions_of(text.content@).0 && advanced(
                text,
                text.content@.len() as int,
                s.next_input,
            ),
    {
        let mut items: Vec<Expression> = Vec::new();
        let mut cur = text;
        let ghost mut used: int = 0;
        assert(text.content@.skip(0) == text.content@);
        assert(text.content@.take(0) == Seq::<char>::empty());
        loop
            invariant
                advanced(text, used, cur),
                expressions_of(text.content@) == (
                    (items@.len() + expressions_of(cur.content@).0) as nat,
                    (used + expressions_of(cur.content@).1) as nat,
                ),
            ensures
                advanced(text, used, cur),
                expressions_of(text.content@) == (items@.len(), used as nat),
            decreases cur.content@.len(),
        {
            let len = cur.content.unicode_len();
            match Expression::parse_expression(cur) {
                Ok(e) => {
                    let ghost n = expression_len(cur.content@)->0;
                    if e.next_input.content.unicode_len() >= len {
                        break;
                    }
                    proof {
                        lemma_advanced_trans(text, used, cur, n as int, e.next_input);
                        used = used + n;
                    }
                    items.push(e.content);
                    cur = e.next_input;
                },
                Err(_) => {
                    break;
                },
            }
        }
        let ghost used_total = used;
        if items.len() == 0 {
            return Err(cur.generate_error(String::from_str("Expected a declaration")));
        }
        let end = parse_eof(cur)?;
        proof {
            lemma_advanced_trans(text, used, cur, cur.content@.len() as int, end.next_input);
            assert(text.content@.skip(used) == cur.content@);
        }
        Ok(ParserSuccess { content: Ast(items), next_input: end.next_input })
    }
}

impl Parsable for Ast {
    fn parse<'a>(text: ParserInput<'a>) -> ParserResult<'a, Self> {
        Self::parse_text(text)
    }
}

} // verus!
