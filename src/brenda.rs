//! The tokens of the reaction description language, each with the white
//! space around it.
use vstd::prelude::*;

use crate::parser::{
    advanced, between_spaces, ident_len, ident_text, identifier, identifier_of, lemma_advanced_trans, literal,
    natural_number, natural_of, real_number, fixed_value, number_text, number_well_formed,
    run_len, digit_char, space0, starts_with, ws_len, ParserInput, ParserResult, ParserSuccess,
};

verus! {

/// The length of `keyword` with the white space around it at the start of
/// `s`, when it is there.
pub open spec fn spaced_kw(s: Seq<char>, keyword: Seq<char>) -> Option<nat> {
    let w = ws_len(s);
    if starts_with(s.skip(w as int), keyword) {
        Some(w + keyword.len() + ws_len(s.skip((w + keyword.len()) as int)))
    } else {
        None
    }
}

/// The identifier, with the white space around it, at the start of `s`,
/// and the length it takes.
pub open spec fn spaced_ident(s: Seq<char>) -> Option<(Seq<char>, nat)> {
    let w = ws_len(s);
    let t = s.skip(w as int);
    if identifier_of(t) is Some {
        let n = w + ident_len(t);
        Some((ident_text(t), n + ws_len(s.skip(n as int))))
    } else {
        None
    }
}

/// The natural number, with the white space around it, at the start of `s`.
pub open spec fn spaced_uint(s: Seq<char>) -> Option<(u32, nat)> {
    let w = ws_len(s);
    let t = s.skip(w as int);
    let d = run_len(t, digit_char());
    if d > 0 && natural_of(t) <= u32::MAX {
        let n = w + d;
        Some((natural_of(t) as u32, n + ws_len(s.skip(n as int))))
    } else {
        None
    }
}

/// The decimal number in thousandths, with the white space around it, at
/// the start of `s`.
pub open spec fn spaced_fixed(s: Seq<char>) -> Option<(u64, nat)> {
    let w = ws_len(s);
    let t = s.skip(w as int);
    let num = number_text(t);
    if number_well_formed(num) && fixed_value(num) <= u64::MAX {
        let n = w + num.len();
        Some((fixed_value(num) as u64, n + ws_len(s.skip(n as int))))
    } else {
        None
    }
}

/// A decimal number between zero and one, in thousandths, with the white
/// space around it, at the start of `s`.
pub open spec fn spaced_fraction(s: Seq<char>) -> Option<(u64, nat)> {
    match spaced_fixed(s) {
        Some((v, n)) => if v <= 1000 {
            Some((v, n))
        } else {
            None
        },
        None => None,
    }
}

/// `keyword` between optional white space.
fn spaced<'a>(keyword: &'static str, input: ParserInput<'a>) -> (r: ParserResult<'a, &'static str>)
    ensures
        r is Ok <==> spaced_kw(input.content@, keyword@) is Some,
        r matches Ok(s) ==> s.content == keyword && advanced(
            input,
            spaced_kw(input.content@, keyword@)->0 as int,
            s.next_input,
        ),
{
    let lit = |i: ParserInput<'a>| -> (o: ParserResult<'a, &'static str>)
        ensures
            o is Ok <==> starts_with(i.content@, keyword@),
            o matches Ok(s) ==> s.content == keyword && advanced(i, keyword@.len() as int, s.next_input),
        { literal(keyword, i) };
    let r = between_spaces(lit, input);
    proof {
        let (mid, inner) = choose|mid: ParserInput<'a>, inner: ParserResult<'a, &'static str>|
            {
                &&& advanced(input, ws_len(input.content@) as int, mid)
                &&& #[trigger] lit.ensures((mid,), inner)
                &&& (inner is Err <==> r is Err)
                &&& (inner is Ok ==> r is Ok && r->Ok_0.content == inner->Ok_0.content && advanced(
                    inner->Ok_0.next_input,
                    ws_len(inner->Ok_0.next_input.content@) as int,
                    r->Ok_0.next_input,
                ))
            };
        let w = ws_len(input.content@);
        if inner is Ok {
            let s = inner->Ok_0;
            lemma_advanced_trans(input, w as int, mid, keyword@.len() as int, s.next_input);
            lemma_advanced_trans(
                input,
                (w + keyword@.len()) as int,
                s.next_input,
                ws_len(s.next_input.content@) as int,
                r->Ok_0.next_input,
            );
        }
    }
    r
}

/// The end of the text, after optional white space.
pub fn parse_eof<'a>(input: ParserInput<'a>) -> (r: ParserResult<'a, ()>)
    ensures
        r is Ok <==> ws_len(input.content@) == input.content@.len(),
        r matches Ok(s) ==> advanced(input, input.content@.len() as int, s.next_input),
{
    let Ok(a) = space0(input) else { return Err(input.generate_error(String::from_str(""))) };
    if a.next_input.content.unicode_len() == 0 {
        Ok(ParserSuccess { content: (), next_input: a.next_input })
    } else {
        Err(a.next_input.generate_error(String::from_str("Expected end of file")))
    }
}

/// The unit `uN`, with the white space around it.
pub fn parse_uN<'a>(input: ParserInput<'a>) -> (r: ParserResult<'a, &'static str>)
    ensures
        r is Ok <==> spaced_kw(input.content@, "uN"@) is Some,
        r matches Ok(s) ==> s.content@ == "uN"@ && advanced(
            input,
            spaced_kw(input.content@, "uN"@)->0 as int,
            s.next_input,
        ),
{
    spaced("uN", input)
}

/// An opening parenthesis, with the white space around it.
pub fn parse_lparen<'a>(input: ParserInput<'a>) -> (r: ParserResult<'a, &'static str>)
    ensures
        r is Ok <==> spaced_kw(input.content@, "("@) is Some,
        r matches Ok(s) ==> s.content@ == "("@ && advanced(
            input,
            spaced_kw(input.content@, "("@)->0 as int,
            s.next_input,
        ),
{
    spaced("(", input)
}

/// A closing parenthesis, with the white space around it.
pub fn parse_rparen<'a>(input: ParserInput<'a>) -> (r: ParserResult<'a, &'static str>)
    ensures
        r is Ok <==> spaced_kw(input.content@, ")"@) is Some,
        r matches Ok(s) ==> s.content@ == ")"@ && advanced(
            input,
            spaced_kw(input.content@, ")"@)->0 as int,
            s.next_input,
        ),
{
    spaced(")", input)
}

/// A colon, with the white space around it.
pub fn parse_colon<'a>(input: ParserInput<'a>) -> (r: ParserResult<'a, &'static str>)
    ensures
        r is Ok <==> spaced_kw(input.content@, ":"@) is Some,
        r matches Ok(s) ==> s.content@ == ":"@ && advanced(
            input,
            spaced_kw(input.content@, ":"@)->0 as int,
            s.next_input,
        ),
{
    spaced(":", input)
}

/// An arrow `->`, with the white space around it.
pub fn parse_arrow<'a>(input: ParserInput<'a>) -> (r: ParserResult<'a, &'static str>)
    ensures
        r is Ok <==> spaced_kw(input.content@, "->"@) is Some,
        r matches Ok(s) ==> s.content@ == "->"@ && advanced(
            input,
            spaced_kw(input.content@, "->"@)->0 as int,
            s.next_input,
        ),
{
    spaced("->", input)
}

/// A vertical bar, with the white space around it.
pub fn parse_pipe<'a>(input: ParserInput<'a>) -> (r: ParserResult<'a, &'static str>)
    ensures
        r is Ok <==> spaced_kw(input.content@, "|"@) is Some,
        r matches Ok(s) ==> s.content@ == "|"@ && advanced(
            input,
            spaced_kw(input.content@, "|"@)->0 as int,
            s.next_input,
        ),
{
    spaced("|", input)
}

/// A semicolon, with the white space around it.
pub fn parse_semicolon<'a>(input: ParserInput<'a>) -> (r: ParserResult<'a, &'static str>)
    ensures
        r is Ok <==> spaced_kw(input.content@, ";"@) is Some,
        r matches Ok(s) ==> s.content@ == ";"@ && advanced(
            input,
            spaced_kw(input.content@, ";"@)->0 as int,
            s.next_input,
        ),
{
    spaced(";", input)
}

/// A dash, with the white space around it.
pub fn parse_dash<'a>(input: ParserInput<'a>) -> (r: ParserResult<'a, &'static str>)
    ensures
        r is Ok <==> spaced_kw(input.content@, "-"@) is Some,
        r matches Ok(s) ==> s.content@ == "-"@ && advanced(
            input,
            spaced_kw(input.content@, "-"@)->0 as int,
            s.next_input,
        ),
{
    spaced("-", input)
}

/// An equals sign, with the white space around it.
pub fn parse_equal<'a>(input: ParserInput<'a>) -> (r: ParserResult<'a, &'static str>)
    ensures
        r is Ok <==> spaced_kw(input.content@, "="@) is Some,
        r matches Ok(s) ==> s.content@ == "="@ && advanced(
            input,
            spaced_kw(input.content@, "="@)->0 as int,
            s.next_input,
        ),
{
    spaced("=", input)
}

/// A plus sign, with the white space around it.
pub fn parse_plus<'a>(input: ParserInput<'a>) -> (r: ParserResult<'a, &'static str>)
    ensures
        r is Ok <==> spaced_kw(input.content@, "+"@) is Some,
        r matches Ok(s) ==> s.content@ == "+"@ && advanced(
            input,
            spaced_kw(input.content@, "+"@)->0 as int,
            s.next_input,
        ),
{
    spaced("+", input)
}

/// The keyword `init`, with the white space around it.
pub fn parse_init<'a>(input: ParserInput<'a>) -> (r: ParserResult<'a, ()>)
    ensures
        r is Ok <==> spaced_kw(input.content@, "init"@) is Some,
        r matches Ok(s) ==> advanced(
            input,
            spaced_kw(input.content@, "init"@)->0 as int,
            s.next_input,
        ),
{
    let a = spaced("init", input)?;
    Ok(ParserSuccess { content: (), next_input: a.next_input })
}

/// The keyword `vitesse`, which declares a speed, with the white space around it.
pub fn parse_speed<'a>(input: ParserInput<'a>) -> (r: ParserResult<'a, ()>)
    ensures
        r is Ok <==> spaced_kw(input.content@, "vitesse"@) is Some,
        r matches Ok(s) ==> advanced(
            input,
            spaced_kw(input.content@, "vitesse"@)->0 as int,
            s.next_input,
        ),
{
    let a = spaced("vitesse", input)?;
    Ok(ParserSuccess { content: (), next_input: a.next_input })
}

/// The keyword `diametre`, which declares a diameter, with the white space around it.
pub fn parse_diameter<'a>(input: ParserInput<'a>) -> (r: ParserResult<'a, ()>)
    ensures
        r is Ok <==> spaced_kw(input.content@, "diametre"@) is Some,
        r matches Ok(s) ==> advanced(
            input,
            spaced_kw(input.content@, "diametre"@)->0 as int,
            s.next_input,
        ),
{
    let a = spaced("diametre", input)?;
    Ok(ParserSuccess { content: (), next_input: a.next_input })
}

/// An identifier, with the white space around it.
pub fn parse_identifier<'a>(input: ParserInput<'a>) -> (r: ParserResult<'a, String>)
    ensures
        r is Ok <==> spaced_ident(input.content@) is Some,
        r matches Ok(s) ==> s.content@ == (spaced_ident(input.content@)->0).0 && advanced(
            input,
            (spaced_ident(input.content@)->0).1 as int,
            s.next_input,
        ),
{
    let Ok(a) = space0(input) else { return Err(input.generate_error(String::from_str(""))) };
    let b = identifier(a.next_input)?;
    let Ok(c) = space0(b.next_input) else { return Err(input.generate_error(String::from_str(""))) };
    proof {
        let w = ws_len(input.content@);
        let n = ident_len(a.next_input.content@);
        lemma_advanced_trans(input, w as int, a.next_input, n as int, b.next_input);
        lemma_advanced_trans(
            input,
            (w + n) as int,
            b.next_input,
            ws_len(b.next_input.content@) as int,
            c.next_input,
        );
    }
    Ok(ParserSuccess { content: b.content, next_input: c.next_input })
}

/// A natural number, with the white space around it.
pub fn parse_uint<'a>(input: ParserInput<'a>) -> (r: ParserResult<'a, u32>)
    ensures
        r is Ok <==> spaced_uint(input.content@) is Some,
        r matches Ok(s) ==> s.content == (spaced_uint(input.content@)->0).0 && advanced(
            input,
            (spaced_uint(input.content@)->0).1 as int,
            s.next_input,
        ),
{
    let Ok(a) = space0(input) else { return Err(input.generate_error(String::from_str(""))) };
    let b = natural_number(a.next_input)?;
    let Ok(c) = space0(b.next_input) else { return Err(input.generate_error(String::from_str(""))) };
    proof {
        let w = ws_len(input.content@);
        let n = run_len(a.next_input.content@, digit_char());
        lemma_advanced_trans(input, w as int, a.next_input, n as int, b.next_input);
        lemma_advanced_trans(
            input,
            (w + n) as int,
            b.next_input,
            ws_len(b.next_input.content@) as int,
            c.next_input,
        );
    }
    Ok(ParserSuccess { content: b.content, next_input: c.next_input })
}

/// A decimal number in thousandths, with the white space around it.
pub fn parse_float<'a>(input: ParserInput<'a>) -> (r: ParserResult<'a, u64>)
    ensures
        r is Ok <==> spaced_fixed(input.content@) is Some,
        r matches Ok(s) ==> s.content == (spaced_fixed(input.content@)->0).0 && advanced(
            input,
            (spaced_fixed(input.content@)->0).1 as int,
            s.next_input,
        ),
{
    let Ok(a) = space0(input) else { return Err(input.generate_error(String::from_str(""))) };
    let b = real_number(a.next_input)?;
    let Ok(c) = space0(b.next_input) else { return Err(input.generate_error(String::from_str(""))) };
    proof {
        let w = ws_len(input.content@);
        let n = number_text(a.next_input.content@).len();
        lemma_advanced_trans(input, w as int, a.next_input, n as int, b.next_input);
        lemma_advanced_trans(
            input,
            (w + n) as int,
            b.next_input,
            ws_len(b.next_input.content@) as int,
            c.next_input,
        );
    }
    Ok(ParserSuccess { content: b.content, next_input: c.next_input })
}

/// A decimal number in thousandths within `a..=b`, with the white space
/// around it.
pub fn parse_float_ranged<'a>(a: u64, b: u64, input: ParserInput<'a>) -> (r: ParserResult<'a, u64>)
    ensures
        r is Ok <==> (spaced_fixed(input.content@) is Some && a <= (spaced_fixed(input.content@)->0).0 <= b),
        r matches Ok(s) ==> s.content == (spaced_fixed(input.content@)->0).0 && advanced(
            input,
            (spaced_fixed(input.content@)->0).1 as int,
            s.next_input,
        ),
{
    let x = parse_float(input)?;
    if a <= x.content && x.content <= b {
        Ok(x)
    } else {
        Err(input.generate_error(String::from_str("Value out of range")))
    }
}

/// Identifiers separated by plus signs at the start of `s`, and the length
/// they take; a plus sign must be followed by another identifier.
pub open spec fn sum_list(s: Seq<char>) -> Option<(Seq<Seq<char>>, nat)>
    decreases s.len(),
{
    match identifier_of(s) {
        None => None,
        Some((id, n1)) => match spaced_kw(s.skip(n1 as int), "+"@) {
            None => Some((seq![id], n1)),
            Some(n2) => if 0 < n1 + n2 <= s.len() {
                match sum_list(s.skip((n1 + n2) as int)) {
                    None => None,
                    Some((ids, m)) => Some((seq![id] + ids, n1 + n2 + m)),
                }
            } else {
                None
            },
        },
    }
}

pub open spec fn strings_view(v: Seq<String>) -> Seq<Seq<char>> {
    v.map_values(|x: String| x@)
}

/// Identifiers separated by plus signs, as in `A + B + C`.
pub fn parse_solubes_and_results<'a>(input: ParserInput<'a>) -> (r: ParserResult<'a, Vec<String>>)
    ensures
        r is Ok <==> sum_list(input.content@) is Some,
        r matches Ok(s) ==> strings_view(s.content@) == (sum_list(input.content@)->0).0 && advanced(
            input,
            (sum_list(input.content@)->0).1 as int,
            s.next_input,
        ),
{
    let mut items: Vec<String> = Vec::new();
    let mut cur = input;
    let ghost mut used: int = 0;
    assert(input.content@.skip(0) == input.content@);
    assert(input.content@.take(0) == Seq::<char>::empty());
    assert(strings_view(items@) == Seq::<Seq<char>>::empty());
    loop
        invariant
            advanced(input, used, cur),
            sum_list(input.content@) == match sum_list(cur.content@) {
                None => None,
                Some((ids, m)) => Some((strings_view(items@) + ids, (used + m) as nat)),
            },
        decreases cur.content@.len(),
    {
        let id = identifier(cur)?;
        let ghost n1 = ident_len(cur.content@);
        proof {
            lemma_advanced_trans(input, used, cur, n1 as int, id.next_input);
        }
        match parse_plus(id.next_input) {
            Err(_) => {
                let ghost before = strings_view(items@);
                items.push(id.content);
                assert(strings_view(items@) == before + seq![id.content@]);
                return Ok(ParserSuccess { content: items, next_input: id.next_input });
            },
            Ok(plus) => {
                let ghost n2 = spaced_kw(id.next_input.content@, "+"@)->0;
                proof {
                    lemma_advanced_trans(input, used + n1, id.next_input, n2 as int, plus.next_input);
                    assert(cur.content@.skip(n1 as int) == id.next_input.content@);
                    assert(cur.content@.skip((n1 + n2) as int) == plus.next_input.content@);
                    used = used + n1 + n2;
                }
                let ghost before = strings_view(items@);
                items.push(id.content);
                assert(strings_view(items@) == before + seq![id.content@]);
                cur = plus.next_input;
            },
        }
    }
}

} // verus!
