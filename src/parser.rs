//! Recursive-descent parser: tokens to an expression tree.
use vstd::prelude::*;
use crate::lexer::{SToken, Term, Token};

verus! {

broadcast use vstd::std_specs::vec::axiom_vec_index_decreases;

/// The tokens do not form one expression.
#[derive(Debug)]
pub struct ParseError;

/// A node of the expression tree: a token and its operands.
#[derive(Debug)]
pub struct ParseNode {
    pub dependencies: Vec<ParseNode>,
    pub token: Token,
}

/// Mathematical model of an expression tree.
pub ghost struct SNode {
    pub token: SToken,
    pub deps: Seq<SNode>,
}

impl ParseNode {
    /// The tree as a model; a node has at most two operands.
    pub open spec fn view(&self) -> SNode
        decreases self,
    {
        let d = self.dependencies;
        SNode {
            token: self.token.view(),
            deps: if d.len() == 0 {
                Seq::empty()
            } else if d.len() == 1 {
                seq![d[0].view()]
            } else {
                seq![d[0].view(), d[1].view()]
            },
        }
    }
}

/// Every node has at most two operands, and a leaf has none.
pub open spec fn well_formed(n: &ParseNode) -> bool
    decreases n,
{
    &&& n.dependencies.len() <= 2
    &&& n.token is Term ==> n.dependencies.len() == 0
    &&& n.dependencies.len() >= 1 ==> well_formed(&n.dependencies[0])
    &&& n.dependencies.len() >= 2 ==> well_formed(&n.dependencies[1])
}

pub open spec fn is_binop(t: SToken) -> bool {
    match t {
        SToken::Neg | SToken::Plus | SToken::Mul | SToken::Lt | SToken::Le | SToken::Gt
        | SToken::Ge | SToken::Eq | SToken::And | SToken::Or | SToken::Ne => true,
        _ => false,
    }
}

pub open spec fn is_unop(t: SToken) -> bool {
    match t {
        SToken::Neg | SToken::Sin | SToken::Cos => true,
        _ => false,
    }
}

pub open spec fn leaf(t: SToken) -> SNode {
    SNode { token: t, deps: Seq::empty() }
}

/// The grammar
///   expr -> term (binop expr)? | unop expr | '(' expr ')'
/// read from position `i`: the tree and the position after it.
pub open spec fn parse_at(ts: Seq<SToken>, i: int) -> Option<(SNode, int)>
    decreases ts.len() - i,
{
    if i < 0 || i >= ts.len() {
        None
    } else {
        let t = ts[i];
        if t is LeftParen {
            match parse_at(ts, i + 1) {
                Some((e, j)) => if i < j < ts.len() && ts[j] is RightParen {
                    Some((e, j + 1))
                } else {
                    None
                },
                None => None,
            }
        } else if t is Term {
            if i + 1 < ts.len() {
                let op = ts[i + 1];
                if op is RightParen {
                    Some((leaf(t), i + 1))
                } else if is_binop(op) {
                    match parse_at(ts, i + 2) {
                        Some((rhs, j)) => Some((SNode { token: op, deps: seq![leaf(t), rhs] }, j)),
                        None => None,
                    }
                } else {
                    None
                }
            } else {
                Some((leaf(t), i + 1))
            }
        } else if is_unop(t) {
            match parse_at(ts, i + 1) {
                Some((e, j)) => Some((SNode { token: t, deps: seq![e] }, j)),
                None => None,
            }
        } else {
            None
        }
    }
}

/// The tree of a whole token sequence, if it is exactly one expression.
pub open spec fn spec_parse(ts: Seq<SToken>) -> Option<SNode> {
    match parse_at(ts, 0) {
        Some((n, j)) => if j == ts.len() { Some(n) } else { None },
        None => None,
    }
}

proof fn lemma_parse_at_advances(ts: Seq<SToken>, i: int)
    requires
        parse_at(ts, i) is Some,
    ensures
        match parse_at(ts, i) {
            Some((_, j)) => i < j <= ts.len(),
            None => false,
        },
    decreases ts.len() - i,
{
    let t = ts[i];
    if t is LeftParen {
        lemma_parse_at_advances(ts, i + 1);
    } else if t is Term {
        if i + 1 < ts.len() && is_binop(ts[i + 1]) {
            lemma_parse_at_advances(ts, i + 2);
        }
    } else if is_unop(t) {
        lemma_parse_at_advances(ts, i + 1);
    }
}

impl Term {
    /// A copy of the term.
    pub fn duplicate(&self) -> (r: Term)
        ensures
            r.view() == self.view(),
    {
        match self {
            Term::Var(s) => Term::Var(s.clone()),
            Term::IntV(i) => Term::IntV(*i),
            Term::FloatV(s) => Term::FloatV(s.clone()),
            Term::BoolV(b) => Term::BoolV(*b),
        }
    }
}

impl Token {
    /// A copy of the token.
    pub fn duplicate(&self) -> (r: Token)
        ensures
            r.view() == self.view(),
    {
        match self {
            Token::Term(t) => Token::Term(t.duplicate()),
            Token::Neg => Token::Neg,
            Token::Plus => Token::Plus,
            Token::LeftParen => Token::LeftParen,
            Token::RightParen => Token::RightParen,
            Token::Sin => Token::Sin,
            Token::Cos => Token::Cos,
            Token::Mul => Token::Mul,
            Token::Lt => Token::Lt,
            Token::Le => Token::Le,
            Token::Gt => Token::Gt,
            Token::Ge => Token::Ge,
            Token::Eq => Token::Eq,
            Token::Not => Token::Not,
            Token::And => Token::And,
            Token::Or => Token::Or,
            Token::Ne => Token::Ne,
        }
    }
}

fn is_binop_exec(t: &Token) -> (b: bool)
    ensures
        b == is_binop(t.view()),
{
    match t {
        Token::Neg | Token::Plus | Token::Mul | Token::Lt | Token::Le | Token::Gt | Token::Ge
        | Token::Eq | Token::And | Token::Or | Token::Ne => true,
        _ => false,
    }
}

fn is_unop_exec(t: &Token) -> (b: bool)
    ensures
        b == is_unop(t.view()),
{
    match t {
        Token::Neg | Token::Sin | Token::Cos => true,
        _ => false,
    }
}

fn leaf_node(t: Token) -> (n: ParseNode)
    ensures
        n.view() == leaf(t.view()),
        well_formed(&n),
{
    let n = ParseNode { dependencies: Vec::new(), token: t };
    assert(n.view().deps =~= Seq::<SNode>::empty());
    n
}

fn parse_expr(tokens: &[Token], i: usize) -> (r: Result<(ParseNode, usize), ParseError>)
    ensures
        match r {
            Ok((n, j)) => parse_at(crate::lexer::tokens_view(tokens@), i as int) == Some((n.view(), j as int))
                && well_formed(&n),
            Err(_) => parse_at(crate::lexer::tokens_view(tokens@), i as int) is None,
        },
    decreases tokens@.len() - i,
{
    let ghost ts = crate::lexer::tokens_view(tokens@);
    if i >= tokens.len() {
        return Err(ParseError);
    }
    assert(ts[i as int] == tokens@[i as int].view());
    let t = &tokens[i];
    match t {
        Token::LeftParen => {
            let (e, j) = parse_expr(tokens, i + 1)?;
            proof {
                lemma_parse_at_advances(ts, i + 1);
            }
            if j < tokens.len() {
                assert(ts[j as int] == tokens@[j as int].view());
                if let Token::RightParen = &tokens[j] {
                    return Ok((e, j + 1));
                }
            }
            Err(ParseError)
        },
        Token::Term(term) => {
            let lf = leaf_node(Token::Term(term.duplicate()));
            if i + 1 < tokens.len() {
                let op = &tokens[i + 1];
                assert(ts[i + 1] == tokens@[i + 1].view());
                if let Token::RightParen = op {
                    Ok((lf, i + 1))
                } else if is_binop_exec(op) {
                    let (rhs, j) = parse_expr(tokens, i + 2)?;
                    let ghost lv = lf.view();
                    let ghost rv = rhs.view();
                    let ghost lg = lf;
                    let ghost rg = rhs;
                    let n = ParseNode { dependencies: vec![lf, rhs], token: op.duplicate() };
                    assert(n.dependencies@[0] == lg && n.dependencies@[1] == rg);
                    assert(n.view().deps =~= seq![lv, rv]);
                    assert(!(n.token is Term)) by {
                        assert(is_binop(n.token.view()));
                    }
                    Ok((n, j))
                } else {
                    Err(ParseError)
                }
            } else {
                Ok((lf, i + 1))
            }
        },
        _ => {
            if is_unop_exec(t) {
                let (e, j) = parse_expr(tokens, i + 1)?;
                let ghost ev = e.view();
                let ghost eg = e;
                let n = ParseNode { dependencies: vec![e], token: t.duplicate() };
                assert(n.dependencies@[0] == eg);
                assert(n.view().deps =~= seq![ev]);
                assert(!(n.token is Term)) by {
                    assert(is_unop(n.token.view()));
                }
                Ok((n, j))
            } else {
                Err(ParseError)
            }
        },
    }
}

/// Parses a whole token sequence as one expression; leftover tokens are an error.
pub fn parse(tokens: &[Token]) -> (r: Result<ParseNode, ParseError>)
    ensures
        match r {
            Ok(n) => spec_parse(crate::lexer::tokens_view(tokens@)) == Some(n.view()) && well_formed(&n),
            Err(_) => spec_parse(crate::lexer::tokens_view(tokens@)) is None,
        },
{
    let (node, rest) = parse_expr(tokens, 0)?;
    if rest == tokens.len() {
        Ok(node)
    } else {
        Err(ParseError)
    }
}

} // verus!
