//! Parsing primitives over text with line and column tracking.
use vstd::prelude::*;

verus! {

/// The text that remains to be parsed, with the line and column (from zero)
/// at which it starts.
#[derive(Debug, PartialEq, Copy, Clone)]
pub struct ParserInput<'a> {
    pub content: &'a str,
    pub line: usize,
    pub col: usize,
}

/// A parsed value and the input that follows it.
#[derive(Debug, PartialEq)]
pub struct ParserSuccess<'a, Output> {
    pub content: Output,
    pub next_input: ParserInput<'a>,
}

#[derive(Debug, PartialEq)]
pub struct ParserError {
    pub error: String,
}

pub type ParserResult<'a, Output> = Result<ParserSuccess<'a, Output>, ParserError>;

/// Whether std counts the character as white space.
pub uninterp spec fn is_space(c: char) -> bool;

/// Whether std counts the character as alphabetic.
pub uninterp spec fn is_alpha(c: char) -> bool;

/// Whether std counts the character as alphanumeric.
pub uninterp spec fn is_alnum(c: char) -> bool;

/// The text of an error at a line and column (from one) of `content`.
pub uninterp spec fn error_text(line: usize, col: usize, content: Seq<char>, reason: Seq<char>) -> Seq<char>;

/// Relies on char::is_whitespace.
#[verifier::external_body]
pub(crate) fn char_is_space(c: char) -> (r: bool)
    ensures
        r == is_space(c),
{
    c.is_whitespace()
}

/// Relies on char::is_alphabetic.
#[verifier::external_body]
pub(crate) fn char_is_alpha(c: char) -> (r: bool)
    ensures
        r == is_alpha(c),
{
    c.is_alphabetic()
}

/// Relies on char::is_alphanumeric.
#[verifier::external_body]
pub(crate) fn char_is_alnum(c: char) -> (r: bool)
    ensures
        r == is_alnum(c),
{
    c.is_alphanumeric()
}

/// Relies on std's `format!`: the position, the remaining text and the
/// reason, written into one message.
#[verifier::external_body]
fn format_error(line: usize, col: usize, content: &str, reason: &str) -> (r: String)
    ensures
        r@ == error_text(line, col, content@, reason@),
{
    format!("Error At: line {}, column {} , \n At: {} \n Reason: {}", line, col, content, reason)
}

pub open spec fn sat_inc(x: usize) -> usize {
    if x < usize::MAX {
        (x + 1) as usize
    } else {
        x
    }
}

fn inc(x: usize) -> (r: usize)
    ensures
        r == sat_inc(x),
{
    if x < usize::MAX {
        x + 1
    } else {
        x
    }
}

/// The line and column reached from `(line, col)` after the characters of
/// `s`: a line break starts the next line at column zero.
pub open spec fn pos_after(line: usize, col: usize, s: Seq<char>) -> (usize, usize)
    decreases s.len(),
{
    if s.len() == 0 {
        (line, col)
    } else {
        let (l, c) = pos_after(line, col, s.drop_last());
        if s.last() == '\n' {
            (sat_inc(l), 0)
        } else {
            (l, sat_inc(c))
        }
    }
}

/// `next` is `input` after its first `n` characters.
pub open spec fn advanced(input: ParserInput, n: int, next: ParserInput) -> bool {
    &&& 0 <= n <= input.content@.len()
    &&& next.content@ == input.content@.skip(n)
    &&& (next.line, next.col) == pos_after(input.line, input.col, input.content@.take(n))
}

/// The number of leading characters of `s` that satisfy `p`.
pub open spec fn run_len(s: Seq<char>, p: spec_fn(char) -> bool) -> nat
    decreases s.len(),
{
    if s.len() > 0 && p(s[0]) {
        1 + run_len(s.skip(1), p)
    } else {
        0
    }
}

pub open spec fn space_char() -> spec_fn(char) -> bool {
    |c: char| is_space(c)
}

pub open spec fn alnum_char() -> spec_fn(char) -> bool {
    |c: char| is_alnum(c)
}

pub open spec fn unquoted_char() -> spec_fn(char) -> bool {
    |c: char| c != '"'
}

pub open spec fn digit_char() -> spec_fn(char) -> bool {
    |c: char| '0' <= c <= '9'
}

pub open spec fn ws_len(s: Seq<char>) -> nat {
    run_len(s, space_char())
}

/// A run of `i` characters satisfying `p`, ended by the end of `s` or by a
/// character that does not, is the leading run.
pub proof fn lemma_run_len(s: Seq<char>, p: spec_fn(char) -> bool, i: int)
    requires
        0 <= i <= s.len(),
        forall|k: int| 0 <= k < i ==> #[trigger] p(s[k]),
        i == s.len() || !p(s[i]),
    ensures
        run_len(s, p) == i,
    decreases i,
{
    if i > 0 {
        let t = s.skip(1);
        assert forall|k: int| 0 <= k < i - 1 implies #[trigger] p(t[k]) by {
            assert(t[k] == s[k + 1]);
        }
        if i < s.len() {
            assert(t[i - 1] == s[i]);
        }
        lemma_run_len(t, p, i - 1);
    }
}

/// The characters of a leading run satisfy its predicate.
pub proof fn lemma_run_prefix(s: Seq<char>, p: spec_fn(char) -> bool, k: int)
    requires
        0 <= k < run_len(s, p),
    ensures
        p(s[k]),
        run_len(s, p) <= s.len(),
    decreases s.len(),
{
    if k > 0 {
        lemma_run_prefix(s.skip(1), p, k - 1);
    } else {
        lemma_run_bound(s, p);
    }
}

pub proof fn lemma_run_bound(s: Seq<char>, p: spec_fn(char) -> bool)
    ensures
        run_len(s, p) <= s.len(),
        run_len(s, p) < s.len() ==> !p(s[run_len(s, p) as int]),
    decreases s.len(),
{
    if s.len() > 0 && p(s[0]) {
        lemma_run_bound(s.skip(1), p);
        let r = run_len(s.skip(1), p);
        if r < s.skip(1).len() {
            assert(s.skip(1)[r as int] == s[r as int + 1]);
        }
    }
}

impl<'a> ParserInput<'a> {
    /// The whole of `input`, from line zero, column zero.
    pub fn new(input: &'a str) -> (r: Self)
        ensures
            r.content@ == input@,
            r.line == 0,
            r.col == 0,
    {
        Self { content: input, line: 0, col: 0 }
    }

    /// An error at this input's position (counted from one) with the given
    /// reason.
    pub fn generate_error(self, error_msg: String) -> (r: ParserError)
        ensures
            r.error@ == error_text(sat_inc(self.line), sat_inc(self.col), self.content@, error_msg@),
    {
        let error = format_error(inc(self.line), inc(self.col), self.content, error_msg.as_str());
        ParserError { error }
    }

    /// This input after its first `n` characters.
    pub fn advance(self, n: usize) -> (r: Self)
        requires
            n <= self.content@.len(),
        ensures
            advanced(self, n as int, r),
    {
        let mut line = self.line;
        let mut col = self.col;
        let mut k: usize = 0;
        while k < n
            invariant
                k <= n,
                n <= self.content@.len(),
                (line, col) == pos_after(self.line, self.col, self.content@.take(k as int)),
            decreases n - k,
        {
            let c = self.content.get_char(k);
            assert(self.content@.take(k + 1).drop_last() == self.content@.take(k as int));
            if c == '\n' {
                line = inc(line);
                col = 0;
            } else {
                col = inc(col);
            }
            k = k + 1;
        }
        let len = self.content.unicode_len();
        let rest = self.content.substring_char(n, len);
        assert(rest@ == self.content@.skip(n as int));
        ParserInput { content: rest, line, col }
    }

    /// The length of the leading run of white space.
    fn spaces(self) -> (r: usize)
        ensures
            r == ws_len(self.content@),
    {
        let len = self.content.unicode_len();
        let mut i: usize = 0;
        while i < len && char_is_space(self.content.get_char(i))
            invariant
                i <= len,
                len == self.content@.len(),
                forall|k: int| 0 <= k < i ==> #[trigger] space_char()(self.content@[k]),
            decreases len - i,
        {
            i = i + 1;
        }
        proof {
            lemma_run_len(self.content@, space_char(), i as int);
        }
        i
    }
}

/// One character of any kind; fails at the end of the text.
pub fn anychar<'a>(input: ParserInput<'a>) -> (r: ParserResult<'a, char>)
    ensures
        r is Ok <==> input.content@.len() > 0,
        r matches Ok(s) ==> s.content == input.content@[0] && advanced(input, 1, s.next_input),
{
    let len = input.content.unicode_len();
    if len == 0 {
        Err(input.generate_error(String::from_str("Unexpected end of file")))
    } else {
        let c = input.content.get_char(0);
        Ok(ParserSuccess { content: c, next_input: input.advance(1) })
    }
}

/// Whether `s` starts with `prefix`.
pub open spec fn starts_with(s: Seq<char>, prefix: Seq<char>) -> bool {
    prefix.len() <= s.len() && s.take(prefix.len() as int) == prefix
}

/// The keyword itself, when the input starts with it.
pub fn literal<'a>(keyword: &'static str, input: ParserInput<'a>) -> (r: ParserResult<'a, &'static str>)
    ensures
        r is Ok <==> starts_with(input.content@, keyword@),
        r matches Ok(s) ==> s.content == keyword && advanced(input, keyword@.len() as int, s.next_input),
        r matches Err(e) ==> e.error@ == error_text(
            sat_inc(input.line),
            sat_inc(input.col),
            input.content@,
            "expected keyword "@ + keyword@,
        ),
{
    let klen = keyword.unicode_len();
    let len = input.content.unicode_len();
    let mut matches = klen <= len;
    let mut k: usize = 0;
    while matches && k < klen
        invariant
            k <= klen,
            klen == keyword@.len(),
            len == input.content@.len(),
            matches ==> klen <= len,
            matches ==> forall|i: int| 0 <= i < k ==> input.content@[i] == keyword@[i],
            !matches ==> !starts_with(input.content@, keyword@),
        decreases klen - k,
    {
        if input.content.get_char(k) != keyword.get_char(k) {
            matches = false;
            assert(input.content@.take(klen as int)[k as int] != keyword@[k as int]);
        }
        k = k + 1;
    }
    if matches {
        assert(input.content@.take(klen as int) =~= keyword@);
        Ok(ParserSuccess { content: keyword, next_input: input.advance(klen) })
    } else {
        let msg = String::from_str("expected keyword ").concat(keyword);
        Err(input.generate_error(msg))
    }
}

/// Skips any white space; never fails.
pub fn space0<'a>(input: ParserInput<'a>) -> (r: ParserResult<'a, ()>)
    ensures
        r matches Ok(s) && advanced(input, ws_len(input.content@) as int, s.next_input),
{
    let n = input.spaces();
    proof {
        lemma_run_bound(input.content@, space_char());
    }
    Ok(ParserSuccess { content: (), next_input: input.advance(n) })
}

/// Skips white space; fails unless there is some.
pub fn space1<'a>(input: ParserInput<'a>) -> (r: ParserResult<'a, ()>)
    ensures
        r is Ok <==> ws_len(input.content@) > 0,
        r matches Ok(s) ==> advanced(input, ws_len(input.content@) as int, s.next_input),
{
    let n = input.spaces();
    proof {
        lemma_run_bound(input.content@, space_char());
    }
    if n == 0 {
        Err(input.generate_error(String::from_str("Expected white space")))
    } else {
        Ok(ParserSuccess { content: (), next_input: input.advance(n) })
    }
}

/// `parser`, run after optional white space, followed by optional white
/// space.
pub fn between_spaces<'a, R, P>(parser: P, input: ParserInput<'a>) -> (r: ParserResult<'a, R>) where
    P: Fn(ParserInput<'a>) -> ParserResult<'a, R>,

    requires
        forall|i: ParserInput<'a>| #[trigger] parser.requires((i,)),
    ensures
        exists|mid: ParserInput<'a>, inner: ParserResult<'a, R>|
            {
                &&& advanced(input, ws_len(input.content@) as int, mid)
                &&& #[trigger] parser.ensures((mid,), inner)
                &&& (inner is Err <==> r is Err)
                &&& (inner is Err ==> r == inner)
                &&& (inner is Ok ==> r is Ok && r->Ok_0.content == inner->Ok_0.content && advanced(
                    inner->Ok_0.next_input,
                    ws_len(inner->Ok_0.next_input.content@) as int,
                    r->Ok_0.next_input,
                ))
            },
{
    let n = input.spaces();
    proof {
        lemma_run_bound(input.content@, space_char());
    }
    let mid = input.advance(n);
    let inner = parser(mid);
    match inner {
        Ok(s) => {
            let ghost kept = s;
            let m = s.next_input.spaces();
            proof {
                lemma_run_bound(s.next_input.content@, space_char());
            }
            let next = s.next_input.advance(m);
            let r = Ok(ParserSuccess { content: s.content, next_input: next });
            assert(parser.ensures((mid,), Ok(kept)));
            r
        },
        Err(e) => {
            let ghost kept = e;
            assert(parser.ensures((mid,), Err(kept)));
            Err(e)
        },
    }
}

/// The length of the bare word at the start of `s`, an alphabetic
/// character and then alphanumeric ones; zero when there is none.
pub open spec fn naked_len(s: Seq<char>) -> nat {
    if s.len() > 0 && is_alpha(s[0]) {
        1 + run_len(s.skip(1), alnum_char())
    } else {
        0
    }
}

/// The number of characters between a leading double quote and the next one.
pub open spec fn quoted_inner(s: Seq<char>) -> nat {
    run_len(s.skip(1), unquoted_char())
}

/// Whether `s` starts with a non-empty string in double quotes.
pub open spec fn quoted_matches(s: Seq<char>) -> bool {
    &&& s.len() > 0
    &&& s[0] == '"'
    &&& quoted_inner(s) > 0
    &&& 1 + quoted_inner(s) < s.len()
}

/// The identifier at the start of `s`, a bare word or else a quoted string,
/// with the number of characters it takes.
pub open spec fn identifier_of(s: Seq<char>) -> Option<(Seq<char>, nat)> {
    if naked_len(s) > 0 {
        Some((s.take(naked_len(s) as int), naked_len(s)))
    } else if quoted_matches(s) {
        Some((s.subrange(1, 1 + quoted_inner(s) as int), quoted_inner(s) + 2))
    } else {
        None
    }
}

pub open spec fn ident_text(s: Seq<char>) -> Seq<char> {
    match identifier_of(s) {
        Some((t, _)) => t,
        None => seq![],
    }
}

pub open spec fn ident_len(s: Seq<char>) -> nat {
    match identifier_of(s) {
        Some((_, n)) => n,
        None => 0,
    }
}

pub open spec fn digit_value(c: char) -> int {
    c as int - '0' as int
}

/// The number written by the decimal digits of `t`.
pub open spec fn digits_value(t: Seq<char>) -> int
    decreases t.len(),
{
    if t.len() == 0 {
        0
    } else {
        digits_value(t.drop_last()) * 10 + digit_value(t.last())
    }
}

pub proof fn lemma_digits_grow(t: Seq<char>, k: int)
    requires
        0 <= k <= t.len(),
        forall|i: int| 0 <= i < t.len() ==> #[trigger] digit_char()(t[i]),
    ensures
        digits_value(t) >= digits_value(t.take(k)) >= 0,
    decreases t.len() - k,
{
    if k < t.len() {
        assert(t.take(k + 1).drop_last() == t.take(k));
        lemma_digits_nonneg(t.take(k));
        assert(digit_char()(t[k]));
        lemma_digits_grow(t, k + 1);
    } else {
        assert(t.take(k) == t);
        lemma_digits_nonneg(t);
    }
}

pub proof fn lemma_digits_nonneg(t: Seq<char>)
    requires
        forall|i: int| 0 <= i < t.len() ==> #[trigger] digit_char()(t[i]),
    ensures
        digits_value(t) >= 0,
    decreases t.len(),
{
    if t.len() > 0 {
        assert forall|i: int| 0 <= i < t.drop_last().len() implies #[trigger] digit_char()(
            t.drop_last()[i],
        ) by {
            assert(t.drop_last()[i] == t[i]);
        }
        lemma_digits_nonneg(t.drop_last());
        assert(digit_char()(t[t.len() - 1]));
    }
}

/// The natural number at the start of `s`: its leading decimal digits.
pub open spec fn natural_of(s: Seq<char>) -> int {
    digits_value(s.take(run_len(s, digit_char()) as int))
}

fn is_digit(c: char) -> (r: bool)
    ensures
        r == digit_char()(c),
{
    '0' <= c && c <= '9'
}

/// A bare word: an alphabetic character followed by alphanumeric ones.
pub fn naked_string<'a>(input: ParserInput<'a>) -> (r: ParserResult<'a, String>)
    ensures
        r is Ok <==> naked_len(input.content@) > 0,
        r matches Ok(s) ==> s.content@ == input.content@.take(naked_len(input.content@) as int)
            && advanced(input, naked_len(input.content@) as int, s.next_input),
{
    let len = input.content.unicode_len();
    if len == 0 || !char_is_alpha(input.content.get_char(0)) {
        return Err(input.generate_error(String::from_str("Expected alphabetic character")));
    }
    let mut i: usize = 1;
    while i < len && char_is_alnum(input.content.get_char(i))
        invariant
            1 <= i <= len,
            len == input.content@.len(),
            forall|k: int| 1 <= k < i ==> #[trigger] alnum_char()(input.content@[k]),
        decreases len - i,
    {
        i = i + 1;
    }
    proof {
        let t = input.content@.skip(1);
        assert forall|k: int| 0 <= k < i - 1 implies #[trigger] alnum_char()(t[k]) by {
            assert(t[k] == input.content@[k + 1]);
        }
        if i < len {
            assert(t[i - 1] == input.content@[i as int]);
        }
        lemma_run_len(t, alnum_char(), i - 1);
    }
    let word = input.content.substring_char(0, i).to_owned();
    Ok(ParserSuccess { content: word, next_input: input.advance(i) })
}

/// A non-empty string in double quotes, without the quotes.
pub fn quoted_string<'a>(input: ParserInput<'a>) -> (r: ParserResult<'a, String>)
    ensures
        r is Ok <==> quoted_matches(input.content@),
        r matches Ok(s) ==> s.content@ == input.content@.subrange(
            1,
            1 + quoted_inner(input.content@) as int,
        ) && advanced(input, quoted_inner(input.content@) + 2int, s.next_input),
{
    let len = input.content.unicode_len();
    if len == 0 || input.content.get_char(0) != '"' {
        return Err(input.generate_error(String::from_str("Expected double quote")));
    }
    let mut i: usize = 1;
    while i < len && input.content.get_char(i) != '"'
        invariant
            1 <= i <= len,
            len == input.content@.len(),
            forall|k: int| 1 <= k < i ==> #[trigger] unquoted_char()(input.content@[k]),
        decreases len - i,
    {
        i = i + 1;
    }
    proof {
        let t = input.content@.skip(1);
        assert forall|k: int| 0 <= k < i - 1 implies #[trigger] unquoted_char()(t[k]) by {
            assert(t[k] == input.content@[k + 1]);
        }
        if i < len {
            assert(t[i - 1] == input.content@[i as int]);
        }
        lemma_run_len(t, unquoted_char(), i - 1);
    }
    if i == 1 {
        return Err(input.generate_error(String::from_str("Expected non empty string")));
    }
    if i == len {
        return Err(input.generate_error(String::from_str("Expected double quote")));
    }
    let inner = input.content.substring_char(1, i).to_owned();
    Ok(ParserSuccess { content: inner, next_input: input.advance(i + 1) })
}

/// A bare word, or else a quoted string.
pub fn identifier<'a>(input: ParserInput<'a>) -> (r: ParserResult<'a, String>)
    ensures
        r is Ok <==> identifier_of(input.content@) is Some,
        r matches Ok(s) ==> s.content@ == ident_text(input.content@) && advanced(
            input,
            ident_len(input.content@) as int,
            s.next_input,
        ),
{
    match naked_string(input) {
        Ok(s) => Ok(s),
        Err(_) => quoted_string(input),
    }
}

/// The leading run of decimal digits as a number; fails when there is no
/// digit or the number exceeds `u32::MAX`.
pub fn natural_number<'a>(input: ParserInput<'a>) -> (r: ParserResult<'a, u32>)
    ensures
        r is Ok <==> run_len(input.content@, digit_char()) > 0 && natural_of(input.content@)
            <= u32::MAX,
        r matches Ok(s) ==> s.content == natural_of(input.content@) && advanced(
            input,
            run_len(input.content@, digit_char()) as int,
            s.next_input,
        ),
{
    let ghost text = input.content@;
    let len = input.content.unicode_len();
    let mut value: u64 = 0;
    let mut i: usize = 0;
    while i < len && is_digit(input.content.get_char(i))
        invariant
            i <= len,
            len == text.len(),
            text == input.content@,
            forall|k: int| 0 <= k < i ==> #[trigger] digit_char()(text[k]),
            value == digits_value(text.take(i as int)),
            value <= u32::MAX,
        decreases len - i,
    {
        let c = input.content.get_char(i);
        assert(text.take(i + 1).drop_last() == text.take(i as int));
        value = value * 10 + (c as u64 - '0' as u64);
        i = i + 1;
        if value > 0xffff_ffff {
            proof {
                let d = run_len(text, digit_char());
                lemma_run_bound(text, digit_char());
                lemma_run_at_least(text, digit_char(), i as int);
                let t = text.take(d as int);
                assert forall|k: int| 0 <= k < t.len() implies #[trigger] digit_char()(t[k]) by {
                    lemma_run_prefix(text, digit_char(), k);
                }
                lemma_digits_grow(t, i as int);
                assert(t.take(i as int) == text.take(i as int));
            }
            return Err(input.generate_error(String::from_str("Number too large")));
        }
    }
    proof {
        lemma_run_len(text, digit_char(), i as int);
    }
    if i == 0 {
        return Err(input.generate_error(String::from_str("Expected natural number")));
    }
    Ok(ParserSuccess { content: value as u32, next_input: input.advance(i) })
}

/// A run of `i` characters satisfying `p` is within the leading run.
pub proof fn lemma_run_at_least(s: Seq<char>, p: spec_fn(char) -> bool, i: int)
    requires
        0 <= i <= s.len(),
        forall|k: int| 0 <= k < i ==> #[trigger] p(s[k]),
    ensures
        run_len(s, p) >= i,
    decreases i,
{
    if i > 0 {
        let t = s.skip(1);
        assert forall|k: int| 0 <= k < i - 1 implies #[trigger] p(t[k]) by {
            assert(t[k] == s[k + 1]);
        }
        lemma_run_at_least(t, p, i - 1);
    }
}

pub open spec fn number_char() -> spec_fn(char) -> bool {
    |c: char| ('0' <= c <= '9') || c == '.'
}

pub open spec fn not_dot() -> spec_fn(char) -> bool {
    |c: char| c != '.'
}

/// The leading run of digits and dots of `s`.
pub open spec fn number_text(s: Seq<char>) -> Seq<char> {
    s.take(run_len(s, number_char()) as int)
}

/// The digits of `t` before its first dot.
pub open spec fn int_digits(t: Seq<char>) -> Seq<char> {
    t.take(run_len(t, not_dot()) as int)
}

/// The characters of `t` after its first dot; none without a dot.
pub open spec fn frac_digits(t: Seq<char>) -> Seq<char> {
    let d = run_len(t, not_dot());
    if d < t.len() {
        t.skip(d as int + 1)
    } else {
        seq![]
    }
}

/// A decimal number: digits with at most one dot, not a dot alone.
pub open spec fn number_well_formed(t: Seq<char>) -> bool {
    &&& t.len() > 0
    &&& t != seq!['.']
    &&& run_len(frac_digits(t), not_dot()) == frac_digits(t).len()
}

/// The first three fraction digits as thousandths; later ones are dropped.
pub open spec fn frac_value(f: Seq<char>) -> int {
    if f.len() >= 3 {
        digits_value(f.take(3))
    } else if f.len() == 2 {
        digits_value(f) * 10
    } else if f.len() == 1 {
        digits_value(f) * 100
    } else {
        0
    }
}

/// The value of a decimal number in thousandths.
pub open spec fn fixed_value(t: Seq<char>) -> int {
    digits_value(int_digits(t)) * 1000 + frac_value(frac_digits(t))
}

fn is_number_char(c: char) -> (r: bool)
    ensures
        r == number_char()(c),
{
    ('0' <= c && c <= '9') || c == '.'
}

/// The number written by the digits of `text` from `from` to `to`, when it
/// does not exceed `u64::MAX`.
fn digits_at(text: &str, from: usize, to: usize) -> (r: Option<u64>)
    requires
        from <= to <= text@.len(),
        forall|k: int| from <= k < to ==> #[trigger] digit_char()(text@[k]),
    ensures
        digits_value(text@.subrange(from as int, to as int)) <= u64::MAX ==> r == Some(
            digits_value(text@.subrange(from as int, to as int)) as u64,
        ),
        digits_value(text@.subrange(from as int, to as int)) > u64::MAX ==> r is None,
        r matches Some(v) ==> v == digits_value(text@.subrange(from as int, to as int)),
{
    let ghost t = text@.subrange(from as int, to as int);
    let mut value: u128 = 0;
    let mut i: usize = from;
    while i < to
        invariant
            from <= i <= to,
            to <= text@.len(),
            t == text@.subrange(from as int, to as int),
            forall|k: int| from <= k < to ==> #[trigger] digit_char()(text@[k]),
            value == digits_value(t.take(i - from)),
            value <= u64::MAX,
        decreases to - i,
    {
        let c = text.get_char(i);
        assert(digit_char()(text@[i as int]));
        assert(t.take(i + 1 - from).drop_last() == t.take(i - from));
        assert(t.take(i + 1 - from).last() == c);
        value = value * 10 + (c as u128 - '0' as u128);
        i = i + 1;
        if value > 0xffff_ffff_ffff_ffff {
            proof {
                assert forall|k: int| 0 <= k < t.len() implies #[trigger] digit_char()(t[k]) by {
                    assert(t[k] == text@[from + k]);
                }
                lemma_digits_grow(t, i - from);
            }
            return None;
        }
    }
    assert(t.take(to - from) == t);
    Some(value as u64)
}

/// A decimal number of digits and at most one dot, as a fixed-point value
/// in thousandths; fraction digits past the third are dropped. Fails when
/// the leading run of digits and dots is not such a number or its value
/// exceeds `u64::MAX`.
pub fn real_number<'a>(input: ParserInput<'a>) -> (r: ParserResult<'a, u64>)
    ensures
        r is Ok <==> number_well_formed(number_text(input.content@)) && fixed_value(
            number_text(input.content@),
        ) <= u64::MAX,
        r matches Ok(s) ==> s.content == fixed_value(number_text(input.content@)) && advanced(
            input,
            number_text(input.content@).len() as int,
            s.next_input,
        ),
{
    let ghost s = input.content@;
    let len = input.content.unicode_len();
    let mut n: usize = 0;
    while n < len && is_number_char(input.content.get_char(n))
        invariant
            n <= len,
            len == s.len(),
            s == input.content@,
            forall|k: int| 0 <= k < n ==> #[trigger] number_char()(s[k]),
        decreases len - n,
    {
        n = n + 1;
    }
    proof {
        lemma_run_len(s, number_char(), n as int);
    }
    let ghost t = s.take(n as int);
    assert(number_text(s) == t);
    if n == 0 {
        return Err(input.generate_error(String::from_str("Expected number")));
    }
    let mut d: usize = 0;
    while d < n && input.content.get_char(d) != '.'
        invariant
            d <= n,
            n <= len,
            len == s.len(),
            s == input.content@,
            t == s.take(n as int),
            forall|k: int| 0 <= k < d ==> #[trigger] not_dot()(t[k]),
        decreases n - d,
    {
        d = d + 1;
    }
    proof {
        lemma_run_len(t, not_dot(), d as int);
    }
    let mut well_formed = true;
    if d < n {
        let ghost f = t.skip(d + 1);
        assert(frac_digits(t) == f);
        let mut k: usize = d + 1;
        while k < n && input.content.get_char(k) != '.'
            invariant
                d + 1 <= k <= n,
                n <= len,
                len == s.len(),
                s == input.content@,
            s == input.content@,
                t == s.take(n as int),
                f == t.skip(d + 1),
                forall|i: int| 0 <= i < k - d - 1 ==> #[trigger] not_dot()(f[i]),
            decreases n - k,
        {
            assert(f[k - d - 1] == s[k as int]);
            k = k + 1;
        }
        if k < n {
            proof {
                assert(f[k - d - 1] == s[k as int]);
                if run_len(f, not_dot()) == f.len() {
                    lemma_run_prefix(f, not_dot(), k - d - 1);
                }
            }
            well_formed = false;
        } else {
            proof {
                lemma_run_len(f, not_dot(), f.len() as int);
            }
        }
    } else {
        assert(frac_digits(t) == Seq::<char>::empty());
        proof {
            lemma_run_len(frac_digits(t), not_dot(), 0);
        }
    }
    if n == 1 && d == 0 {
        proof {
            assert(t.len() == 1);
            assert(t[0] == '.');
            assert(t =~= seq!['.']);
        }
        well_formed = false;
    }
    if !well_formed {
        return Err(input.generate_error(String::from_str("Expected real number")));
    }
    proof {
        if n == 1 && d != 0 {
            assert(t[0] != '.');
        }
        assert(t != seq!['.']) by {
            if t =~= seq!['.'] {
                assert(t[0] == '.');
            }
        }
    }
    assert forall|k: int| 0 <= k < d implies #[trigger] digit_char()(input.content@[k]) by {
        assert(number_char()(s[k]));
        assert(not_dot()(t[k]));
    }
    assert(s.subrange(0, d as int) == int_digits(t));
    let whole = match digits_at(input.content, 0, d) {
        Some(v) => v,
        None => {
            proof {
                lemma_frac_digits(t);
            }
            return Err(input.generate_error(String::from_str("Number too large")));
        },
    };
    assert(whole == digits_value(s.subrange(0, d as int)));
    let mut frac: u64 = 0;
    if d < n {
        let ghost f = t.skip(d + 1);
        let end: usize = if n - (d + 1) >= 3 {
            d + 4
        } else {
            n
        };
        assert forall|k: int| d + 1 <= k < end implies #[trigger] digit_char()(input.content@[k]) by {
            assert(number_char()(s[k]));
            assert(f[k - d - 1] == s[k]);
            lemma_run_prefix(f, not_dot(), k - d - 1);
        }
        let digits = match digits_at(input.content, d + 1, end) {
            Some(v) => v,
            None => 0,
        };
        proof {
            let g = s.subrange(d + 1, end as int);
            assert forall|k: int| 0 <= k < g.len() implies #[trigger] digit_char()(g[k]) by {
                assert(g[k] == s[d + 1 + k]);
            }
            lemma_digits_bound(g);
            if f.len() >= 3 {
                assert(g == f.take(3));
            } else {
                assert(g == f);
            }
        }
        let width = end - (d + 1);
        frac = if width == 3 {
            digits
        } else if width == 2 {
            digits * 10
        } else if width == 1 {
            digits * 100
        } else {
            0
        };
        assert(f == frac_digits(t));
        assert(frac == frac_value(f));
    }
    assert(frac == frac_value(frac_digits(t)));
    let total: u128 = whole as u128 * 1000 + frac as u128;
    assert(whole == digits_value(int_digits(t)));
    assert(total == fixed_value(t));
    if total > 0xffff_ffff_ffff_ffff {
        return Err(input.generate_error(String::from_str("Number too large")));
    }
    Ok(ParserSuccess { content: total as u64, next_input: input.advance(n) })
}

/// The fraction of a number made of digits and dots, with no second dot,
/// is made of digits and has a non-negative value.
pub proof fn lemma_frac_digits(t: Seq<char>)
    requires
        forall|k: int| 0 <= k < t.len() ==> #[trigger] number_char()(t[k]),
        run_len(frac_digits(t), not_dot()) == frac_digits(t).len(),
    ensures
        forall|k: int|
            0 <= k < frac_digits(t).len() ==> #[trigger] digit_char()(frac_digits(t)[k]),
        frac_value(frac_digits(t)) >= 0,
{
    let f = frac_digits(t);
    let d = run_len(t, not_dot());
    lemma_run_bound(t, not_dot());
    assert forall|k: int| 0 <= k < f.len() implies #[trigger] digit_char()(f[k]) by {
        lemma_run_prefix(f, not_dot(), k);
        assert(f[k] == t[d + 1 + k]);
        assert(number_char()(t[d + 1 + k]));
    }
    if f.len() >= 3 {
        assert forall|k: int| 0 <= k < f.take(3).len() implies #[trigger] digit_char()(
            f.take(3)[k],
        ) by {
            assert(f.take(3)[k] == f[k]);
        }
        lemma_digits_nonneg(f.take(3));
    } else {
        lemma_digits_nonneg(f);
    }
}

/// At most three digits make at most 999.
pub proof fn lemma_digits_bound(g: Seq<char>)
    requires
        g.len() <= 3,
        forall|k: int| 0 <= k < g.len() ==> #[trigger] digit_char()(g[k]),
    ensures
        0 <= digits_value(g) <= 999,
        g.len() <= 2 ==> digits_value(g) <= 99,
        g.len() <= 1 ==> digits_value(g) <= 9,
    decreases g.len(),
{
    if g.len() > 0 {
        assert forall|k: int| 0 <= k < g.drop_last().len() implies #[trigger] digit_char()(
            g.drop_last()[k],
        ) by {
            assert(g.drop_last()[k] == g[k]);
        }
        lemma_digits_bound(g.drop_last());
        assert(digit_char()(g[g.len() - 1]));
    }
}

/// Reading `x` and then `y` from a position ends where reading `x + y` does.
pub proof fn lemma_pos_after_concat(line: usize, col: usize, x: Seq<char>, y: Seq<char>)
    ensures
        pos_after(line, col, x + y) == pos_after(
            pos_after(line, col, x).0,
            pos_after(line, col, x).1,
            y,
        ),
    decreases y.len(),
{
    if y.len() == 0 {
        assert(x + y == x);
    } else {
        assert((x + y).drop_last() == x + y.drop_last());
        assert((x + y).last() == y.last());
        lemma_pos_after_concat(line, col, x, y.drop_last());
    }
}

/// Advancing by `n1` and then by `n2` is advancing by `n1 + n2`.
pub proof fn lemma_advanced_trans(a: ParserInput, n1: int, b: ParserInput, n2: int, c: ParserInput)
    requires
        advanced(a, n1, b),
        advanced(b, n2, c),
    ensures
        advanced(a, n1 + n2, c),
{
    let s = a.content@;
    assert(s.take(n1 + n2) == s.take(n1) + s.skip(n1).take(n2));
    assert(s.skip(n1).skip(n2) == s.skip(n1 + n2));
    lemma_pos_after_concat(a.line, a.col, s.take(n1), s.skip(n1).take(n2));
}

} // verus!
