//! Lexer: text to a flat sequence of tokens.
use vstd::prelude::*;
use vstd::string::*;
use itertools::Itertools;
use rayon::iter::IntoParallelRefIterator;
use rayon::iter::ParallelIterator;

verus! {

/// A leaf of the expression language.
///
/// A float literal keeps the text it was written with (digits with one `.`);
/// turning it into a machine float is left to a `FloatKernel`.
#[derive(Debug, PartialEq, Clone)]
pub enum Term {
    Var(String),
    IntV(i64),
    FloatV(String),
    BoolV(bool),
}

#[derive(Debug, PartialEq, Clone)]
pub enum Token {
    Term(Term),
    Neg,
    Plus,
    LeftParen,
    RightParen,
    Sin,
    Cos,
    Mul,
    Lt,
    Le,
    Gt,
    Ge,
    Eq,
    Not,
    And,
    Or,
    Ne,
}

/// A lexing failure, carrying a descriptive fragment.
#[derive(Debug, Clone)]
pub struct LexError {
    pub substr: String,
}

/// Mathematical model of a `Term`.
pub ghost enum STerm {
    Var(Seq<char>),
    IntV(i64),
    FloatV(Seq<char>),
    BoolV(bool),
}

/// Mathematical model of a `Token`.
pub ghost enum SToken {
    Term(STerm),
    Neg,
    Plus,
    LeftParen,
    RightParen,
    Sin,
    Cos,
    Mul,
    Lt,
    Le,
    Gt,
    Ge,
    Eq,
    Not,
    And,
    Or,
    Ne,
}

impl Term {
    pub open spec fn view(&self) -> STerm {
        match self {
            Term::Var(s) => STerm::Var(s@),
            Term::IntV(i) => STerm::IntV(*i),
            Term::FloatV(s) => STerm::FloatV(s@),
            Term::BoolV(b) => STerm::BoolV(*b),
        }
    }
}

impl Token {
    pub open spec fn view(&self) -> SToken {
        match self {
            Token::Term(t) => SToken::Term(t.view()),
            Token::Neg => SToken::Neg,
            Token::Plus => SToken::Plus,
            Token::LeftParen => SToken::LeftParen,
            Token::RightParen => SToken::RightParen,
            Token::Sin => SToken::Sin,
            Token::Cos => SToken::Cos,
            Token::Mul => SToken::Mul,
            Token::Lt => SToken::Lt,
            Token::Le => SToken::Le,
            Token::Gt => SToken::Gt,
            Token::Ge => SToken::Ge,
            Token::Eq => SToken::Eq,
            Token::Not => SToken::Not,
            Token::And => SToken::And,
            Token::Or => SToken::Or,
            Token::Ne => SToken::Ne,
        }
    }
}

pub open spec fn tokens_view(ts: Seq<Token>) -> Seq<SToken> {
    ts.map_values(|t: Token| t.view())
}

/// The outcome of lexing, over models: the tokens, or the error's text.
pub open spec fn lex_outcome(r: Result<Vec<Token>, LexError>) -> Result<Seq<SToken>, Seq<char>> {
    match r {
        Ok(ts) => Ok(tokens_view(ts@)),
        Err(e) => Err(e.substr@),
    }
}

pub open spec fn is_digit(c: char) -> bool {
    '0' <= c && c <= '9'
}

pub open spec fn is_lower(c: char) -> bool {
    'a' <= c && c <= 'z'
}

/// ASCII whitespace: space, tab, line feed, form feed, carriage return.
pub open spec fn is_space(c: char) -> bool {
    c == ' ' || c == '\t' || c == '\n' || c == '\x0C' || c == '\r'
}

pub open spec fn is_number_char(c: char) -> bool {
    is_digit(c) || c == '.'
}

/// Number of characters from position `i` on that satisfy `p`, up to the first that does not.
pub open spec fn run_len(s: Seq<char>, i: int, p: spec_fn(char) -> bool) -> nat
    decreases s.len() - i,
{
    if 0 <= i < s.len() && p(s[i]) {
        1 + run_len(s, i + 1, p)
    } else {
        0
    }
}

pub open spec fn count_dots(s: Seq<char>) -> nat
    decreases s.len(),
{
    if s.len() == 0 {
        0
    } else {
        count_dots(s.drop_last()) + if s.last() == '.' { 1nat } else { 0nat }
    }
}

/// The value of a string of decimal digits.
pub open spec fn digits_value(s: Seq<char>) -> int
    decreases s.len(),
{
    if s.len() == 0 {
        0
    } else {
        digits_value(s.drop_last()) * 10 + (s.last() as int - '0' as int)
    }
}

/// The text of an integer written in decimal, without sign.
pub open spec fn decimal_text(n: nat) -> Seq<char>
    decreases n,
{
    if n < 10 {
        seq![(n + '0' as nat) as char]
    } else {
        decimal_text(n / 10).push(((n % 10) + '0' as nat) as char)
    }
}

/// What a token written at position `i` is, and where it ends.
pub ghost enum Scan {
    Skip,
    Tok(SToken, int),
    Fail(Seq<char>),
}

pub open spec fn next_is(s: Seq<char>, i: int, c: char) -> bool {
    i + 1 < s.len() && s[i + 1] == c
}

pub open spec fn follows(s: Seq<char>, i: int, w: Seq<char>) -> bool {
    i + 1 + w.len() <= s.len() && s.subrange(i + 1, i + 1 + w.len()) == w
}

pub open spec fn scan_number(s: Seq<char>, i: int) -> Scan {
    let end = i + run_len(s, i, |c: char| is_number_char(c));
    let text = s.subrange(i, end);
    if count_dots(text) >= 2 {
        Scan::Fail(multiple_dots_msg())
    } else if count_dots(text) == 1 {
        Scan::Tok(SToken::Term(STerm::FloatV(text)), end)
    } else if digits_value(text) <= i64::MAX {
        Scan::Tok(SToken::Term(STerm::IntV(digits_value(text) as i64)), end)
    } else {
        Scan::Fail(int_range_msg())
    }
}

pub open spec fn keyword(s: Seq<char>, i: int, rest: Seq<char>, t: SToken, msg: Seq<char>) -> Scan {
    if follows(s, i, rest) {
        Scan::Tok(t, i + 1 + rest.len())
    } else {
        Scan::Fail(msg)
    }
}

pub open spec fn multiple_dots_msg() -> Seq<char> {
    "Failed; cannot have multiple `.` in numeric literal"@
}

pub open spec fn int_range_msg() -> Seq<char> {
    "parse error"@
}

pub open spec fn unexpected_msg(c: char) -> Seq<char> {
    "Unexpected character: "@.push(c)
}

/// One step of the lexer at position `i` (with `0 <= i < s.len()`).
pub open spec fn scan(s: Seq<char>, i: int) -> Scan {
    let c = s[i];
    if c == '(' {
        Scan::Tok(SToken::LeftParen, i + 1)
    } else if c == ')' {
        Scan::Tok(SToken::RightParen, i + 1)
    } else if c == '+' {
        Scan::Tok(SToken::Plus, i + 1)
    } else if c == '-' {
        Scan::Tok(SToken::Neg, i + 1)
    } else if c == '*' {
        Scan::Tok(SToken::Mul, i + 1)
    } else if c == '<' {
        if next_is(s, i, '=') { Scan::Tok(SToken::Le, i + 2) } else { Scan::Tok(SToken::Lt, i + 1) }
    } else if c == '>' {
        if next_is(s, i, '=') { Scan::Tok(SToken::Ge, i + 2) } else { Scan::Tok(SToken::Gt, i + 1) }
    } else if c == '!' {
        if next_is(s, i, '=') { Scan::Tok(SToken::Ne, i + 2) } else { Scan::Tok(SToken::Not, i + 1) }
    } else if c == '&' {
        if next_is(s, i, '&') { Scan::Tok(SToken::And, i + 2) } else { Scan::Fail("Failed to parse `and`"@) }
    } else if c == '|' {
        if next_is(s, i, '|') { Scan::Tok(SToken::Or, i + 2) } else { Scan::Fail("Failed to parse `or`"@) }
    } else if c == '=' {
        if next_is(s, i, '=') { Scan::Tok(SToken::Eq, i + 2) } else { Scan::Fail("Failed to parse `eq`"@) }
    } else if is_digit(c) {
        scan_number(s, i)
    } else if c == 't' {
        keyword(s, i, seq!['r', 'u', 'e'], SToken::Term(STerm::BoolV(true)), "Failed to parse `true`"@)
    } else if c == 'f' {
        keyword(s, i, seq!['a', 'l', 's', 'e'], SToken::Term(STerm::BoolV(false)), "Failed to parse `false`"@)
    } else if c == 's' {
        keyword(s, i, seq!['i', 'n'], SToken::Sin, "Failed to parse `sin`"@)
    } else if c == 'c' {
        keyword(s, i, seq!['o', 's'], SToken::Cos, "Failed to parse `cos`"@)
    } else if c == ':' {
        let end = i + 1 + run_len(s, i + 1, |c: char| is_lower(c));
        Scan::Tok(SToken::Term(STerm::Var(s.subrange(i + 1, end))), end)
    } else if is_space(c) {
        Scan::Skip
    } else {
        Scan::Fail(unexpected_msg(c))
    }
}

/// The tokens of `s` from position `i` on, or the text of the first failure.
pub open spec fn lex_from(s: Seq<char>, i: int) -> Result<Seq<SToken>, Seq<char>>
    decreases s.len() - i,
{
    if i < 0 || i >= s.len() {
        Ok(Seq::empty())
    } else {
        match scan(s, i) {
            Scan::Skip => lex_from(s, i + 1),
            Scan::Tok(t, end) => if i < end && end <= s.len() {
                match lex_from(s, end) {
                    Ok(ts) => Ok(seq![t] + ts),
                    Err(e) => Err(e),
                }
            } else {
                Ok(Seq::empty())
            },
            Scan::Fail(m) => Err(m),
        }
    }
}

/// What lexing a line of text gives.
pub open spec fn spec_lex(s: Seq<char>) -> Result<Seq<SToken>, Seq<char>> {
    lex_from(s, 0)
}


proof fn lemma_run_split(s: Seq<char>, i: int, j: int, p: spec_fn(char) -> bool)
    requires
        0 <= i <= j <= s.len(),
        forall|k: int| i <= k < j ==> p(#[trigger] s[k]),
    ensures
        run_len(s, i, p) == (j - i) + run_len(s, j, p),
    decreases j - i,
{
    if i < j {
        lemma_run_split(s, i + 1, j, p);
    }
}

proof fn lemma_run_prefix(s: Seq<char>, i: int, p: spec_fn(char) -> bool)
    requires
        0 <= i,
    ensures
        i + run_len(s, i, p) <= s.len() || run_len(s, i, p) == 0,
        forall|k: int| i <= k < i + run_len(s, i, p) ==> p(#[trigger] s[k]),
    decreases s.len() - i,
{
    if 0 <= i < s.len() && p(s[i]) {
        lemma_run_prefix(s, i + 1, p);
    }
}

proof fn lemma_no_dots(t: Seq<char>)
    requires
        count_dots(t) == 0,
    ensures
        forall|k: int| 0 <= k < t.len() ==> t[k] != '.',
    decreases t.len(),
{
    if t.len() > 0 {
        lemma_no_dots(t.drop_last());
        assert forall|k: int| 0 <= k < t.len() implies t[k] != '.' by {
            if k < t.len() - 1 {
                assert(t[k] == t.drop_last()[k]);
            }
        }
    }
}

proof fn lemma_digits_nonneg(t: Seq<char>)
    requires
        forall|k: int| 0 <= k < t.len() ==> is_digit(#[trigger] t[k]),
    ensures
        digits_value(t) >= 0,
    decreases t.len(),
{
    if t.len() > 0 {
        lemma_digits_nonneg(t.drop_last());
    }
}

proof fn lemma_digits_grow(t: Seq<char>, m: int)
    requires
        0 <= m <= t.len(),
        forall|k: int| 0 <= k < t.len() ==> is_digit(#[trigger] t[k]),
    ensures
        digits_value(t) >= digits_value(t.subrange(0, m)),
    decreases t.len(),
{
    if m < t.len() {
        let d = t.drop_last();
        assert(d.subrange(0, m) =~= t.subrange(0, m));
        lemma_digits_grow(d, m);
        lemma_digits_nonneg(d);
    } else {
        assert(t.subrange(0, m) =~= t);
    }
}

/// The characters of a string, in order.
pub fn chars_of(s: &str) -> (v: Vec<char>)
    ensures
        v@ == s@,
{
    let n = s.unicode_len();
    let mut v: Vec<char> = Vec::new();
    let mut i: usize = 0;
    while i < n
        invariant
            n == s@.len(),
            i <= n,
            v@ == s@.subrange(0, i as int),
        decreases n - i,
    {
        v.push(s.get_char(i));
        i = i + 1;
        assert(v@ =~= s@.subrange(0, i as int));
    }
    assert(v@ =~= s@);
    v
}

/// Relies on `FromIterator<char> for String` (std): the string holds the characters in order.
#[verifier::external_body]
fn string_from_chars(v: &[char]) -> (r: String)
    ensures
        r@ == v@,
{
    v.iter().collect::<String>()
}

fn text_of(s: &Vec<char>, from: usize, to: usize) -> (r: String)
    requires
        from <= to <= s@.len(),
    ensures
        r@ == s@.subrange(from as int, to as int),
{
    let mut part: Vec<char> = Vec::new();
    let mut k: usize = from;
    while k < to
        invariant
            from <= k <= to <= s@.len(),
            part@ == s@.subrange(from as int, k as int),
        decreases to - k,
    {
        part.push(s[k]);
        k = k + 1;
        assert(part@ =~= s@.subrange(from as int, k as int));
    }
    string_from_chars(part.as_slice())
}

fn follows_exec(s: &Vec<char>, i: usize, w: &Vec<char>) -> (b: bool)
    requires
        i < s@.len(),
    ensures
        b == follows(s@, i as int, w@),
{
    if w.len() > s.len() - i - 1 {
        return false;
    }
    let n = s.len();
    let mut j: usize = 0;
    while j < w.len()
        invariant
            n == s@.len(),
            i < s@.len(),
            i + 1 + w@.len() <= s@.len(),
            j <= w@.len(),
            forall|k: int| 0 <= k < j ==> s@[i + 1 + k] == w@[k],
        decreases w@.len() - j,
    {
        if s[i + 1 + j] != w[j] {
            assert(s@.subrange(i + 1, i + 1 + w@.len())[j as int] != w@[j as int]);
            return false;
        }
        j = j + 1;
    }
    assert(s@.subrange(i + 1, i + 1 + w@.len()) =~= w@);
    true
}

/// End of the run of digits and dots that starts at `i`, with the number of dots in it.
fn number_end(s: &Vec<char>, i: usize) -> (r: (usize, usize))
    requires
        i <= s@.len(),
    ensures
        r.0 == i + run_len(s@, i as int, |c: char| is_number_char(c)),
        r.0 <= s@.len(),
        r.1 == count_dots(s@.subrange(i as int, r.0 as int)),
{
    let mut j: usize = i;
    let mut dots: usize = 0;
    while j < s.len() && (('0' <= s[j] && s[j] <= '9') || s[j] == '.')
        invariant
            i <= j <= s@.len(),
            forall|k: int| i <= k < j ==> is_number_char(#[trigger] s@[k]),
            dots == count_dots(s@.subrange(i as int, j as int)),
            dots <= j - i,
        decreases s@.len() - j,
    {
        assert(s@.subrange(i as int, j + 1).drop_last() =~= s@.subrange(i as int, j as int));
        if s[j] == '.' {
            dots = dots + 1;
        }
        j = j + 1;
    }
    proof {
        lemma_run_split(s@, i as int, j as int, |c: char| is_number_char(c));
    }
    (j, dots)
}

/// End of the run of lowercase letters that starts at `i`.
fn lower_end(s: &Vec<char>, i: usize) -> (r: usize)
    requires
        i <= s@.len(),
    ensures
        r == i + run_len(s@, i as int, |c: char| is_lower(c)),
        r <= s@.len(),
{
    let mut j: usize = i;
    while j < s.len() && 'a' <= s[j] && s[j] <= 'z'
        invariant
            i <= j <= s@.len(),
            forall|k: int| i <= k < j ==> is_lower(#[trigger] s@[k]),
        decreases s@.len() - j,
    {
        j = j + 1;
    }
    proof {
        lemma_run_split(s@, i as int, j as int, |c: char| is_lower(c));
    }
    j
}

/// The value of the digits `s[from..to]`, or `None` where it exceeds `i64::MAX`.
fn digits_to_i64(s: &Vec<char>, from: usize, to: usize) -> (r: Option<i64>)
    requires
        from <= to <= s@.len(),
        forall|k: int| from <= k < to ==> is_digit(#[trigger] s@[k]),
    ensures
        match r {
            Some(v) => v as int == digits_value(s@.subrange(from as int, to as int)),
            None => digits_value(s@.subrange(from as int, to as int)) > i64::MAX,
        },
{
    let ghost t = s@.subrange(from as int, to as int);
    let mut val: i64 = 0;
    let mut k: usize = from;
    while k < to
        invariant
            from <= k <= to <= s@.len(),
            t == s@.subrange(from as int, to as int),
            forall|q: int| from <= q < to ==> is_digit(#[trigger] s@[q]),
            val as int == digits_value(s@.subrange(from as int, k as int)),
            val >= 0,
        decreases to - k,
    {
        let d = (s[k] as u32 - '0' as u32) as i64;
        assert(s@.subrange(from as int, k + 1).drop_last() =~= s@.subrange(from as int, k as int));
        if val > (i64::MAX - d) / 10 {
            proof {
                assert(t.subrange(0, k + 1 - from) =~= s@.subrange(from as int, k + 1));
                lemma_digits_grow(t, k + 1 - from);
            }
            return None;
        }
        val = val * 10 + d;
        k = k + 1;
    }
    Some(val)
}

/// The result of one step of the lexer.
enum Step {
    Skip,
    Tok(Token, usize),
    Fail(String),
}

fn tok_step(t: Token, end: usize) -> (r: Step)
    ensures
        r == Step::Tok(t, end),
{
    Step::Tok(t, end)
}

fn fail_step(m: &str) -> (r: Step)
    ensures
        r matches Step::Fail(x) && x@ == m@,
{
    Step::Fail(String::from_str(m))
}

fn keyword_step(s: &Vec<char>, i: usize, rest: Vec<char>, t: Token, msg: &str) -> (r: Step)
    requires
        i < s@.len(),
    ensures
        match r {
            Step::Skip => false,
            Step::Tok(x, e) => keyword(s@, i as int, rest@, t.view(), msg@) == Scan::Tok(x.view(), e as int)
                && i < e <= s@.len(),
            Step::Fail(m) => keyword(s@, i as int, rest@, t.view(), msg@) == Scan::Fail(m@),
        },
{
    if follows_exec(s, i, &rest) {
        let end = s.len() - (s.len() - i - 1 - rest.len());
        Step::Tok(t, end)
    } else {
        fail_step(msg)
    }
}

fn scan_exec(s: &Vec<char>, i: usize) -> (r: Step)
    requires
        i < s@.len(),
    ensures
        match r {
            Step::Skip => scan(s@, i as int) == Scan::Skip,
            Step::Tok(t, e) => scan(s@, i as int) == Scan::Tok(t.view(), e as int) && i < e <= s@.len(),
            Step::Fail(m) => scan(s@, i as int) == Scan::Fail(m@),
        },
{
    let c = s[i];
    let next_eq = i < s.len() - 1 && s[i + 1] == '=';
    if c == '(' {
        tok_step(Token::LeftParen, i + 1)
    } else if c == ')' {
        tok_step(Token::RightParen, i + 1)
    } else if c == '+' {
        tok_step(Token::Plus, i + 1)
    } else if c == '-' {
        tok_step(Token::Neg, i + 1)
    } else if c == '*' {
        tok_step(Token::Mul, i + 1)
    } else if c == '<' {
        if next_eq { tok_step(Token::Le, i + 2) } else { tok_step(Token::Lt, i + 1) }
    } else if c == '>' {
        if next_eq { tok_step(Token::Ge, i + 2) } else { tok_step(Token::Gt, i + 1) }
    } else if c == '!' {
        if next_eq { tok_step(Token::Ne, i + 2) } else { tok_step(Token::Not, i + 1) }
    } else if c == '&' {
        if i < s.len() - 1 && s[i + 1] == '&' {
            tok_step(Token::And, i + 2)
        } else {
            fail_step("Failed to parse `and`")
        }
    } else if c == '|' {
        if i < s.len() - 1 && s[i + 1] == '|' {
            tok_step(Token::Or, i + 2)
        } else {
            fail_step("Failed to parse `or`")
        }
    } else if c == '=' {
        if next_eq { tok_step(Token::Eq, i + 2) } else { fail_step("Failed to parse `eq`") }
    } else if '0' <= c && c <= '9' {
        let (end, dots) = number_end(s, i);
        proof {
            let p = |c: char| is_number_char(c);
            assert(run_len(s@, i as int, p) == 1 + run_len(s@, i + 1, p));
        }
        if dots >= 2 {
            fail_step("Failed; cannot have multiple `.` in numeric literal")
        } else if dots == 1 {
            tok_step(Token::Term(Term::FloatV(text_of(s, i, end))), end)
        } else {
            proof {
                let t = s@.subrange(i as int, end as int);
                lemma_no_dots(t);
                lemma_run_prefix(s@, i as int, |c: char| is_number_char(c));
                assert forall|k: int| i <= k < end implies is_digit(#[trigger] s@[k]) by {
                    assert(t[k - i] == s@[k]);
                }
            }
            match digits_to_i64(s, i, end) {
                Some(v) => tok_step(Token::Term(Term::IntV(v)), end),
                None => fail_step("parse error"),
            }
        }
    } else if c == 't' {
        keyword_step(s, i, vec!['r', 'u', 'e'], Token::Term(Term::BoolV(true)), "Failed to parse `true`")
    } else if c == 'f' {
        keyword_step(s, i, vec!['a', 'l', 's', 'e'], Token::Term(Term::BoolV(false)), "Failed to parse `false`")
    } else if c == 's' {
        keyword_step(s, i, vec!['i', 'n'], Token::Sin, "Failed to parse `sin`")
    } else if c == 'c' {
        keyword_step(s, i, vec!['o', 's'], Token::Cos, "Failed to parse `cos`")
    } else if c == ':' {
        let end = lower_end(s, i + 1);
        tok_step(Token::Term(Term::Var(text_of(s, i + 1, end))), end)
    } else if c == ' ' || c == '\t' || c == '\n' || c == '\x0C' || c == '\r' {
        Step::Skip
    } else {
        let mut m = String::from_str("Unexpected character: ");
        let one = string_from_chars(&[c]);
        m.append(one.as_str());
        proof {
            assert(m@ =~= unexpected_msg(c));
        }
        Step::Fail(m)
    }
}

/// Lexes the characters of one line.
pub fn lex_chars(s: &Vec<char>) -> (r: Result<Vec<Token>, LexError>)
    ensures
        lex_outcome(r) == spec_lex(s@),
{
    let mut out: Vec<Token> = Vec::new();
    let mut i: usize = 0;
    while i < s.len()
        invariant
            i <= s@.len(),
            spec_lex(s@) == match lex_from(s@, i as int) {
                Ok(ts) => Ok(tokens_view(out@) + ts),
                Err(e) => Err(e),
            },
        decreases s@.len() - i,
    {
        match scan_exec(s, i) {
            Step::Skip => {
                i = i + 1;
            },
            Step::Tok(t, end) => {
                proof {
                    let old_view = tokens_view(out@);
                    let tv = t.view();
                    match lex_from(s@, end as int) {
                        Ok(ts) => {
                            assert(tokens_view(out@.push(t)) =~= old_view.push(tv));
                            assert(old_view + (seq![tv] + ts) =~= old_view.push(tv) + ts);
                        },
                        Err(e) => {},
                    }
                }
                out.push(t);
                i = end;
            },
            Step::Fail(m) => {
                return Err(LexError { substr: m });
            },
        }
    }
    assert(tokens_view(out@) + Seq::<SToken>::empty() =~= tokens_view(out@));
    Ok(out)
}

/// Lexes one line of text into tokens; fails on the first character that starts no token.
pub fn lex(program: &str) -> (r: Result<Vec<Token>, LexError>)
    ensures
        lex_outcome(r) == spec_lex(program@),
{
    let cs = chars_of(program);
    lex_chars(&cs)
}

/// A line without its trailing carriage return, if it has one.
pub open spec fn strip_cr(t: Seq<char>) -> Seq<char> {
    if t.len() > 0 && t.last() == '\r' {
        t.drop_last()
    } else {
        t
    }
}

/// The lines of `s` from position `i` on: split at each `'\n'`, each without a
/// trailing `'\r'`; a final line break starts no further line.
pub open spec fn lines_from(s: Seq<char>, i: int) -> Seq<Seq<char>>
    decreases s.len() - i,
{
    if i < 0 || i >= s.len() {
        Seq::empty()
    } else {
        let e = i + run_len(s, i, |c: char| c != '\n');
        if e < s.len() {
            seq![strip_cr(s.subrange(i, e))] + lines_from(s, e + 1)
        } else {
            seq![strip_cr(s.subrange(i, e))]
        }
    }
}

pub open spec fn spec_lines(s: Seq<char>) -> Seq<Seq<char>> {
    lines_from(s, 0)
}

/// Texts joined with a line break between each two.
pub open spec fn joined(ms: Seq<Seq<char>>) -> Seq<char>
    decreases ms.len(),
{
    if ms.len() == 0 {
        Seq::empty()
    } else if ms.len() == 1 {
        ms[0]
    } else {
        joined(ms.drop_last()) + seq!['\n'] + ms.last()
    }
}

/// The per-line outcomes gathered: every line's tokens, or every failure's text, in line order.
pub open spec fn gather(rs: Seq<Result<Seq<SToken>, Seq<char>>>) -> Result<Seq<Seq<SToken>>, Seq<Seq<char>>>
    decreases rs.len(),
{
    if rs.len() == 0 {
        Ok(Seq::empty())
    } else {
        match (gather(rs.drop_last()), rs.last()) {
            (Ok(ts), Ok(t)) => Ok(ts.push(t)),
            (Ok(_), Err(e)) => Err(seq![e]),
            (Err(es), Ok(_)) => Err(es),
            (Err(es), Err(e)) => Err(es.push(e)),
        }
    }
}

/// What lexing a program of several lines gives: each line is lexed on its own; if any
/// fails, the failure's text is the failing lines' texts joined by line breaks.
pub open spec fn spec_lex_multiline(s: Seq<char>) -> Result<Seq<Seq<SToken>>, Seq<char>> {
    match gather(spec_lines(s).map_values(|l: Seq<char>| spec_lex(l))) {
        Ok(tss) => Ok(tss),
        Err(es) => Err(joined(es)),
    }
}

pub open spec fn multiline_outcome(r: Result<Vec<Vec<Token>>, LexError>) -> Result<Seq<Seq<SToken>>, Seq<char>> {
    match r {
        Ok(v) => Ok(v@.map_values(|ts: Vec<Token>| tokens_view(ts@))),
        Err(e) => Err(e.substr@),
    }
}

fn line_end(s: &Vec<char>, i: usize) -> (r: usize)
    requires
        i <= s@.len(),
    ensures
        r == i + run_len(s@, i as int, |c: char| c != '\n'),
        r <= s@.len(),
{
    let mut j: usize = i;
    while j < s.len() && s[j] != '\n'
        invariant
            i <= j <= s@.len(),
            forall|k: int| i <= k < j ==> #[trigger] s@[k] != '\n',
        decreases s@.len() - j,
    {
        j = j + 1;
    }
    proof {
        lemma_run_split(s@, i as int, j as int, |c: char| c != '\n');
    }
    j
}

/// Splits text into its lines.
pub fn split_lines(s: &Vec<char>) -> (r: Vec<Vec<char>>)
    ensures
        r@.map_values(|l: Vec<char>| l@) == spec_lines(s@),
{
    let mut out: Vec<Vec<char>> = Vec::new();
    let mut i: usize = 0;
    while i < s.len()
        invariant
            i <= s@.len(),
            spec_lines(s@) == out@.map_values(|l: Vec<char>| l@) + lines_from(s@, i as int),
        decreases s@.len() - i,
    {
        let e = line_end(s, i);
        let mut stop = e;
        if e > i && s[e - 1] == '\r' {
            stop = e - 1;
        }
        let mut line: Vec<char> = Vec::new();
        let mut k: usize = i;
        while k < stop
            invariant
                i <= k <= stop <= e <= s@.len(),
                line@ == s@.subrange(i as int, k as int),
            decreases stop - k,
        {
            line.push(s[k]);
            k = k + 1;
            assert(line@ =~= s@.subrange(i as int, k as int));
        }
        proof {
            assert(line@ =~= strip_cr(s@.subrange(i as int, e as int)));
            let ov = out@.map_values(|l: Vec<char>| l@);
            assert(out@.push(line).map_values(|l: Vec<char>| l@) =~= ov.push(line@));
            assert(ov + (seq![line@] + lines_from(s@, e + 1)) =~= ov.push(line@) + lines_from(s@, e + 1));
        }
        out.push(line);
        if e < s.len() {
            i = e + 1;
        } else {
            i = e;
        }
    }
    assert(out@.map_values(|l: Vec<char>| l@) + Seq::<Seq<char>>::empty() =~= out@.map_values(|l: Vec<char>| l@));
    out
}

/// Relies on rayon's `par_iter().map(..).collect()` on a vector: each line is lexed by
/// `lex_chars`, possibly on another thread, and the results are collected in line order.
#[verifier::external_body]
fn par_lex_lines(lines: &Vec<Vec<char>>) -> (r: Vec<Result<Vec<Token>, LexError>>)
    ensures
        r@.len() == lines@.len(),
        forall|i: int| 0 <= i < lines@.len() ==> lex_outcome(#[trigger] r@[i]) == spec_lex(lines@[i]@),
{
    lines.par_iter().map(|l| lex_chars(l)).collect()
}

/// Relies on `Itertools::join`: the texts in order, with `"\n"` between each two.
#[verifier::external_body]
fn join_lines(msgs: &Vec<String>) -> (r: String)
    ensures
        r@ == joined(msgs@.map_values(|m: String| m@)),
{
    msgs.iter().join("\n")
}

/// Lexes each line of a program, possibly in parallel; fails as a whole if any line fails.
pub fn lex_multiline(program: &str) -> (r: Result<Vec<Vec<Token>>, LexError>)
    ensures
        multiline_outcome(r) == spec_lex_multiline(program@),
{
    let cs = chars_of(program);
    let lines = split_lines(&cs);
    let mut results = par_lex_lines(&lines);
    let ghost outs = spec_lines(program@).map_values(|l: Seq<char>| spec_lex(l));
    proof {
        assert(lines@.map_values(|l: Vec<char>| l@).len() == lines@.len());
        assert forall|i: int| 0 <= i < results@.len() implies lex_outcome(#[trigger] results@[i]) == outs[i] by {
            assert(lines@.map_values(|l: Vec<char>| l@)[i] == lines@[i]@);
        }
    }
    let ghost all = results@;
    let total = results.len();
    let ghost n = total as nat;
    let mut oks: Vec<Vec<Token>> = Vec::new();
    let mut errs: Vec<String> = Vec::new();
    proof {
        assert(outs.subrange(0, 0) =~= Seq::<Result<Seq<SToken>, Seq<char>>>::empty());
        assert(oks@.map_values(|ts: Vec<Token>| tokens_view(ts@)) =~= Seq::<Seq<SToken>>::empty());
        assert(all.subrange(0, n as int) =~= all);
    }
    let mut k: usize = 0;
    while results.len() > 0
        invariant
            n == total,
            n == outs.len(),
            all.len() == n,
            forall|i: int| 0 <= i < n ==> lex_outcome(#[trigger] all[i]) == outs[i],
            k + results@.len() == n,
            results@ == all.subrange(k as int, n as int),
            gather(outs.subrange(0, k as int)) == if errs@.len() == 0 {
                Ok(oks@.map_values(|ts: Vec<Token>| tokens_view(ts@)))
            } else {
                Err::<Seq<Seq<SToken>>, Seq<Seq<char>>>(errs@.map_values(|m: String| m@))
            },
        decreases results@.len(),
    {
        let item = results.remove(0);
        proof {
            assert(item == all[k as int]);
            assert(outs.subrange(0, k + 1).drop_last() =~= outs.subrange(0, k as int));
            assert(outs.subrange(0, k + 1).last() == outs[k as int]);
        }
        match item {
            Ok(ts) => {
                proof {
                    assert(oks@.push(ts).map_values(|ts: Vec<Token>| tokens_view(ts@))
                        =~= oks@.map_values(|ts: Vec<Token>| tokens_view(ts@)).push(tokens_view(ts@)));
                }
                oks.push(ts);
            },
            Err(e) => {
                proof {
                    assert(errs@.push(e.substr).map_values(|m: String| m@)
                        =~= errs@.map_values(|m: String| m@).push(e.substr@));
                    if errs@.len() == 0 {
                        assert(errs@.push(e.substr).map_values(|m: String| m@) =~= seq![e.substr@]);
                    }
                }
                errs.push(e.substr);
            },
        }
        k = k + 1;
        assert(results@ =~= all.subrange(k as int, n as int));
    }
    assert(outs.subrange(0, n as int) =~= outs);
    if errs.len() == 0 {
        Ok(oks)
    } else {
        Err(LexError { substr: join_lines(&errs) })
    }
}

/// A float literal as the lexer reads it: a digit first, then digits with exactly one `.`.
pub open spec fn is_float_text(t: Seq<char>) -> bool {
    &&& t.len() > 0
    &&& is_digit(t[0])
    &&& forall|k: int| 0 <= k < t.len() ==> is_number_char(#[trigger] t[k])
    &&& count_dots(t) == 1
}

/// The text that writes a literal term.
pub open spec fn literal_text(t: STerm) -> Seq<char> {
    match t {
        STerm::IntV(n) => decimal_text(n as nat),
        STerm::FloatV(text) => text,
        STerm::BoolV(b) => if b { seq!['t', 'r', 'u', 'e'] } else { seq!['f', 'a', 'l', 's', 'e'] },
        STerm::Var(name) => seq![':'] + name,
    }
}

/// A literal that has a written form: a non-negative integer, a float literal, or a boolean.
pub open spec fn is_literal(t: STerm) -> bool {
    match t {
        STerm::IntV(n) => n >= 0,
        STerm::FloatV(text) => is_float_text(text),
        STerm::BoolV(_) => true,
        STerm::Var(_) => false,
    }
}

proof fn lemma_decimal_text(n: nat)
    ensures
        decimal_text(n).len() > 0,
        forall|k: int| 0 <= k < decimal_text(n).len() ==> is_digit(#[trigger] decimal_text(n)[k]),
        digits_value(decimal_text(n)) == n,
    decreases n,
{
    let t = decimal_text(n);
    if n >= 10 {
        lemma_decimal_text(n / 10);
        let d = decimal_text(n / 10);
        assert(t.drop_last() =~= d);
        assert(t.last() == ((n % 10) + '0' as nat) as char);
        assert(t.last() as int == (n % 10) + 48);
        assert(n == (n / 10) * 10 + n % 10);
        assert(digits_value(t) == digits_value(t.drop_last()) * 10 + (t.last() as int - '0' as int));
        assert(digits_value(t) == digits_value(d) * 10 + (n % 10));
        assert forall|k: int| 0 <= k < t.len() implies is_digit(#[trigger] t[k]) by {
            if k < d.len() {
                assert(t[k] == d[k]);
            }
        }
    } else {
        assert(t.drop_last() =~= Seq::<char>::empty());
        assert(t.last() as int == n + 48);
        assert(digits_value(t) == digits_value(t.drop_last()) * 10 + (t.last() as int - '0' as int));
    }
}

proof fn lemma_no_dot_count(t: Seq<char>)
    requires
        forall|k: int| 0 <= k < t.len() ==> #[trigger] t[k] != '.',
    ensures
        count_dots(t) == 0,
    decreases t.len(),
{
    if t.len() > 0 {
        let d = t.drop_last();
        assert forall|k: int| 0 <= k < d.len() implies #[trigger] d[k] != '.' by {
            assert(d[k] == t[k]);
        }
        lemma_no_dot_count(d);
    }
}

/// The tail of `s` from `i` on is one number literal `t`: it lexes to that one token.
proof fn lemma_number_tail(s: Seq<char>, i: int, t: Seq<char>, tok: SToken)
    requires
        0 <= i < s.len(),
        s.subrange(i, s.len() as int) == t,
        t.len() > 0,
        is_digit(t[0]),
        forall|k: int| 0 <= k < t.len() ==> is_number_char(#[trigger] t[k]),
        scan_number(s, i) == Scan::Tok(tok, s.len() as int),
    ensures
        lex_from(s, i) == Ok::<Seq<SToken>, Seq<char>>(seq![tok]),
{
    assert(s[i] == t[0]);
    assert(scan(s, i) == scan_number(s, i));
    assert(lex_from(s, s.len() as int) == Ok::<Seq<SToken>, Seq<char>>(Seq::empty()));
    assert(seq![tok] + Seq::<SToken>::empty() =~= seq![tok]);
}

proof fn lemma_number_run(s: Seq<char>, i: int, t: Seq<char>)
    requires
        0 <= i < s.len(),
        s.subrange(i, s.len() as int) == t,
        forall|k: int| 0 <= k < t.len() ==> is_number_char(#[trigger] t[k]),
    ensures
        i + run_len(s, i, |c: char| is_number_char(c)) == s.len(),
{
    assert forall|k: int| i <= k < s.len() implies is_number_char(#[trigger] s[k]) by {
        assert(s[k] == t[k - i]);
    }
    lemma_run_split(s, i, s.len() as int, |c: char| is_number_char(c));
}

proof fn lemma_literal_tail(s: Seq<char>, i: int, t: STerm)
    requires
        0 <= i < s.len(),
        is_literal(t),
        !(t is BoolV),
        s.subrange(i, s.len() as int) == literal_text(t),
    ensures
        lex_from(s, i) == Ok::<Seq<SToken>, Seq<char>>(seq![SToken::Term(t)]),
{
    let text = literal_text(t);
    match t {
        STerm::IntV(n) => {
            lemma_decimal_text(n as nat);
            assert forall|k: int| 0 <= k < text.len() implies is_number_char(#[trigger] text[k]) by {
                assert(is_digit(text[k]));
            }
        },
        _ => {},
    }
    lemma_number_run(s, i, text);
    assert(s.subrange(i, s.len() as int) =~= text);
    match t {
        STerm::IntV(n) => {
            lemma_decimal_text(n as nat);
            lemma_no_dot_count(text);
            assert(digits_value(text) == n);
            assert(scan_number(s, i) == Scan::Tok(SToken::Term(STerm::IntV(n)), s.len() as int));
            lemma_number_tail(s, i, text, SToken::Term(t));
        },
        STerm::FloatV(x) => {
            assert(scan_number(s, i) == Scan::Tok(SToken::Term(STerm::FloatV(x)), s.len() as int));
            lemma_number_tail(s, i, text, SToken::Term(t));
        },
        _ => {},
    }
}

proof fn lemma_bool_round_trip(b: bool)
    ensures
        spec_lex(literal_text(STerm::BoolV(b))) == Ok::<Seq<SToken>, Seq<char>>(seq![SToken::Term(STerm::BoolV(b))]),
{
    let t = STerm::BoolV(b);
    let text = literal_text(t);
    let r = if b { seq!['r', 'u', 'e'] } else { seq!['a', 'l', 's', 'e'] };
    assert(text.subrange(1, 1 + r.len() as int) =~= r);
    if b {
        assert(scan(text, 0) == keyword(text, 0, r, SToken::Term(t), "Failed to parse `true`"@));
    } else {
        assert(scan(text, 0) == keyword(text, 0, r, SToken::Term(t), "Failed to parse `false`"@));
    }
    assert(scan(text, 0) == Scan::Tok(SToken::Term(t), text.len() as int));
    assert(lex_from(text, text.len() as int) == Ok::<Seq<SToken>, Seq<char>>(Seq::empty()));
    assert(seq![SToken::Term(t)] + Seq::<SToken>::empty() =~= seq![SToken::Term(t)]);
}

proof fn lemma_negated_number(t: STerm)
    requires
        is_literal(t),
        !(t is BoolV),
    ensures
        spec_lex(seq!['-'] + literal_text(t)) == Ok::<Seq<SToken>, Seq<char>>(seq![SToken::Neg, SToken::Term(t)]),
{
    let text = literal_text(t);
    if let STerm::IntV(n) = t {
        lemma_decimal_text(n as nat);
    }
    let s = seq!['-'] + text;
    assert(s.subrange(1, s.len() as int) =~= text);
    lemma_literal_tail(s, 1, t);
    assert(s[0] == '-');
    assert(scan(s, 0) == Scan::Tok(SToken::Neg, 1));
    assert(seq![SToken::Neg] + seq![SToken::Term(t)] =~= seq![SToken::Neg, SToken::Term(t)]);
}

/// Lexing the written form of a literal gives back exactly that literal, and a
/// leading `-` before a number lexes as a separate negation token.
pub proof fn lemma_literal_round_trip(t: STerm)
    requires
        is_literal(t),
    ensures
        spec_lex(literal_text(t)) == Ok::<Seq<SToken>, Seq<char>>(seq![SToken::Term(t)]),
        !(t is BoolV) ==> spec_lex(seq!['-'] + literal_text(t))
            == Ok::<Seq<SToken>, Seq<char>>(seq![SToken::Neg, SToken::Term(t)]),
{
    match t {
        STerm::BoolV(b) => {
            lemma_bool_round_trip(b);
        },
        _ => {
            let text = literal_text(t);
            if let STerm::IntV(n) = t {
                lemma_decimal_text(n as nat);
            }
            assert(text.subrange(0, text.len() as int) =~= text);
            lemma_literal_tail(text, 0, t);
            lemma_negated_number(t);
        },
    }
}

proof fn lemma_run_stop(s: Seq<char>, i: int, p: spec_fn(char) -> bool)
    requires
        0 <= i,
        i + run_len(s, i, p) < s.len(),
    ensures
        !p(s[i + run_len(s, i, p)]),
    decreases s.len() - i,
{
    if 0 <= i < s.len() && p(s[i]) {
        lemma_run_stop(s, i + 1, p);
    }
}

/// Whether `text` is a float literal as the lexer reads it.
pub fn float_text_ok(text: &str) -> (b: bool)
    ensures
        b == is_float_text(text@),
{
    let cs = chars_of(text);
    if cs.len() == 0 || !('0' <= cs[0] && cs[0] <= '9') {
        return false;
    }
    let (end, dots) = number_end(&cs, 0);
    proof {
        let p = |c: char| is_number_char(c);
        lemma_run_prefix(cs@, 0, p);
        assert(cs@.subrange(0, end as int) =~= cs@.subrange(0, end as int));
        if end < cs@.len() {
            lemma_run_stop(cs@, 0, p);
            assert(!is_number_char(cs@[end as int]));
        } else {
            assert(cs@.subrange(0, end as int) =~= cs@);
        }
    }
    end == cs.len() && dots == 1
}

/// A character that some token can contain.
pub open spec fn is_token_char(c: char) -> bool {
    is_space(c) || is_digit(c) || is_lower(c) || c == '(' || c == ')' || c == '+' || c == '-' || c == '*'
        || c == '<' || c == '>' || c == '&' || c == '|' || c == '!' || c == '=' || c == '.' || c == ':'
}

proof fn lemma_scan_stops_before(s: Seq<char>, i: int, k: int)
    requires
        0 <= i < k < s.len(),
        !is_token_char(s[k]),
    ensures
        match scan(s, i) {
            Scan::Tok(_, end) => end <= k,
            _ => true,
        },
{
    let c = s[i];
    if is_digit(c) {
        lemma_run_prefix(s, i, |c: char| is_number_char(c));
    } else if c == ':' {
        lemma_run_prefix(s, i + 1, |c: char| is_lower(c));
    } else if c == 't' || c == 'f' || c == 's' || c == 'c' {
        let w = if c == 't' { seq!['r', 'u', 'e'] } else if c == 'f' { seq!['a', 'l', 's', 'e'] }
            else if c == 's' { seq!['i', 'n'] } else { seq!['o', 's'] };
        if follows(s, i, w) && k < i + 1 + w.len() {
            assert(s.subrange(i + 1, i + 1 + w.len())[k - i - 1] == s[k]);
        }
    }
}

proof fn lemma_lex_reaches(s: Seq<char>, i: int, k: int)
    requires
        0 <= i <= k < s.len(),
        !is_token_char(s[k]),
    ensures
        lex_from(s, i) is Err,
    decreases k - i,
{
    if i < k {
        lemma_scan_stops_before(s, i, k);
        match scan(s, i) {
            Scan::Skip => {
                lemma_lex_reaches(s, i + 1, k);
            },
            Scan::Tok(_, end) => {
                if i < end {
                    lemma_lex_reaches(s, end, k);
                }
            },
            Scan::Fail(_) => {},
        }
    }
}

/// A line holding a character that no token can contain fails to lex as a whole.
pub proof fn lemma_stray_char_fails(s: Seq<char>, k: int)
    requires
        0 <= k < s.len(),
        !is_token_char(s[k]),
    ensures
        spec_lex(s) is Err,
{
    lemma_lex_reaches(s, 0, k);
}

} // verus!
