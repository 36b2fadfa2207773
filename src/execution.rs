//! Vectorised values, their elementwise arithmetic, and the execution graph.
use vstd::prelude::*;
use rayon::iter::IndexedParallelIterator;
use rayon::iter::IntoParallelRefIterator;
use rayon::iter::ParallelIterator;
use crate::lexer::{STerm, SToken, Term, Token};
use crate::parser::{well_formed, ParseNode, SNode};

verus! {

/// The three implemented binary operators.
#[derive(Debug, Clone, Copy, PartialEq, Eq, Structural)]
pub enum ArithOp {
    Add,
    Mul,
    Sub,
}

/// Element type of a `Var`.
#[derive(Debug, Clone, Copy, PartialEq, Eq, Structural)]
pub enum Dtype {
    Int,
    Float,
    Bool,
}

/// A vector value. Floats are held as IEEE-754 binary64 bit patterns; their
/// arithmetic is done by a `FloatKernel`.
#[derive(Debug, Clone)]
pub enum Var {
    IntV(Vec<i64>),
    FloatV(Vec<u64>),
    BoolV(Vec<bool>),
}

/// Float arithmetic on binary64 bit patterns, supplied by the caller.
pub trait FloatKernel {
    /// The bits of the float that a decimal literal (digits with one `.`) denotes.
    fn from_literal(text: &str) -> u64;

    /// The bits of an integer converted to a float.
    fn from_int(i: i64) -> u64;

    /// The bits of `a op b`.
    fn apply(op: ArithOp, a: u64, b: u64) -> u64;
}

/// What contracts know of a value: integers and booleans exactly, floats by count.
pub ghost enum Shape {
    Int(Seq<i64>),
    Float(nat),
    Bool(Seq<bool>),
}

/// Why a binary operator failed.
pub ghost enum Failure {
    InvalidTypes,
    Overflow,
}

impl Var {
    pub open spec fn shape(&self) -> Shape {
        match self {
            Var::IntV(v) => Shape::Int(v@),
            Var::FloatV(v) => Shape::Float(v@.len()),
            Var::BoolV(v) => Shape::Bool(v@),
        }
    }

    /// Exact contents, float bits included.
    pub open spec fn same_as(&self, o: &Var) -> bool {
        match (self, o) {
            (Var::IntV(a), Var::IntV(b)) => a@ == b@,
            (Var::FloatV(a), Var::FloatV(b)) => a@ == b@,
            (Var::BoolV(a), Var::BoolV(b)) => a@ == b@,
            _ => false,
        }
    }

    pub open spec fn spec_dtype(&self) -> Dtype {
        match self {
            Var::IntV(_) => Dtype::Int,
            Var::FloatV(_) => Dtype::Float,
            Var::BoolV(_) => Dtype::Bool,
        }
    }

    pub fn dtype(&self) -> (d: Dtype)
        ensures
            d == self.spec_dtype(),
    {
        match self {
            Var::IntV(_) => Dtype::Int,
            Var::FloatV(_) => Dtype::Float,
            Var::BoolV(_) => Dtype::Bool,
        }
    }

    pub fn i64(&self) -> (r: Option<&Vec<i64>>)
        ensures
            match self {
                Var::IntV(v) => r == Some(v),
                _ => r is None,
            },
    {
        match self {
            Var::IntV(v) => Some(v),
            _ => None,
        }
    }

    pub fn bool(&self) -> (r: Option<&Vec<bool>>)
        ensures
            match self {
                Var::BoolV(v) => r == Some(v),
                _ => r is None,
            },
    {
        match self {
            Var::BoolV(v) => Some(v),
            _ => None,
        }
    }

    /// The float elements, as bit patterns.
    pub fn float_bits(&self) -> (r: Option<&Vec<u64>>)
        ensures
            match self {
                Var::FloatV(v) => r == Some(v),
                _ => r is None,
            },
    {
        match self {
            Var::FloatV(v) => Some(v),
            _ => None,
        }
    }

    /// A copy of the value.
    pub fn duplicate(&self) -> (r: Var)
        ensures
            r.same_as(self),
            r.shape() == self.shape(),
    {
        match self {
            Var::IntV(v) => Var::IntV(v.clone()),
            Var::FloatV(v) => Var::FloatV(v.clone()),
            Var::BoolV(v) => Var::BoolV(v.clone()),
        }
    }
}

pub open spec fn int_op(op: ArithOp, a: int, b: int) -> int {
    match op {
        ArithOp::Add => a + b,
        ArithOp::Mul => a * b,
        ArithOp::Sub => a - b,
    }
}

pub open spec fn fits_i64(x: int) -> bool {
    i64::MIN <= x <= i64::MAX
}

pub open spec fn min_len(a: nat, b: nat) -> nat {
    if a < b { a } else { b }
}

/// The promotion table: `l op r`, elementwise over the shorter length.
pub open spec fn combine_shape(op: ArithOp, l: Shape, r: Shape) -> Result<Shape, Failure> {
    match (l, r) {
        (Shape::Int(a), Shape::Int(b)) => {
            let n = min_len(a.len(), b.len());
            if forall|i: int| 0 <= i < n ==> fits_i64(#[trigger] int_op(op, a[i] as int, b[i] as int)) {
                Ok(Shape::Int(Seq::new(n, |i: int| int_op(op, a[i] as int, b[i] as int) as i64)))
            } else {
                Err(Failure::Overflow)
            }
        },
        (Shape::Float(m), Shape::Float(n)) => Ok(Shape::Float(min_len(m, n))),
        (Shape::Int(a), Shape::Float(n)) => Ok(Shape::Float(min_len(a.len(), n))),
        (Shape::Float(m), Shape::Int(b)) => Ok(Shape::Float(min_len(m, b.len()))),
        _ => Err(Failure::InvalidTypes),
    }
}

pub open spec fn failure_text(f: Failure) -> Seq<char> {
    match f {
        Failure::InvalidTypes => "Invalid types"@,
        Failure::Overflow => "Integer overflow"@,
    }
}

/// `a op b` on integers, or `None` where it leaves the range of `i64`.
pub fn apply_int(op: ArithOp, a: i64, b: i64) -> (r: Option<i64>)
    ensures
        match r {
            Some(v) => fits_i64(int_op(op, a as int, b as int)) && v as int == int_op(op, a as int, b as int),
            None => !fits_i64(int_op(op, a as int, b as int)),
        },
{
    match op {
        ArithOp::Add => a.checked_add(b),
        ArithOp::Mul => a.checked_mul(b),
        ArithOp::Sub => a.checked_sub(b),
    }
}

/// Relies on rayon's `par_iter().zip(..).map(..).collect()`: the zipped iterator is as long
/// as the shorter side, and an indexed parallel iterator collects in order; each element is
/// computed by `apply_int`.
#[verifier::external_body]
fn par_zip_int(op: ArithOp, a: &Vec<i64>, b: &Vec<i64>) -> (r: Vec<Option<i64>>)
    ensures
        r@.len() == min_len(a@.len(), b@.len()),
        forall|i: int| 0 <= i < r@.len() ==> match #[trigger] r@[i] {
            Some(v) => fits_i64(int_op(op, a@[i] as int, b@[i] as int)) && v as int == int_op(op, a@[i] as int, b@[i] as int),
            None => !fits_i64(int_op(op, a@[i] as int, b@[i] as int)),
        },
{
    a.par_iter().zip(b.par_iter()).map(|(x, y)| apply_int(op, *x, *y)).collect()
}

/// `a op b` on floats, as the kernel computes it.
pub fn apply_float<K: FloatKernel>(op: ArithOp, a: u64, b: u64) -> u64 {
    K::apply(op, a, b)
}

/// Relies on rayon's `par_iter().zip(..).map(..).collect()`: the zipped iterator is as long
/// as the shorter side; each element is computed by `apply_float`.
#[verifier::external_body]
fn par_zip_float<K: FloatKernel>(op: ArithOp, a: &Vec<u64>, b: &Vec<u64>) -> (r: Vec<u64>)
    ensures
        r@.len() == min_len(a@.len(), b@.len()),
{
    a.par_iter().zip(b.par_iter()).map(|(x, y)| apply_float::<K>(op, *x, *y)).collect()
}

/// Integers converted to floats by the kernel.
pub fn promote<K: FloatKernel>(a: &Vec<i64>) -> (r: Vec<u64>)
    ensures
        r@.len() == a@.len(),
{
    let mut out: Vec<u64> = Vec::new();
    let mut i: usize = 0;
    while i < a.len()
        invariant
            i <= a@.len(),
            out@.len() == i,
        decreases a@.len() - i,
    {
        out.push(K::from_int(a[i]));
        i = i + 1;
    }
    out
}

fn zip_int(op: ArithOp, a: &Vec<i64>, b: &Vec<i64>) -> (r: Result<Var, String>)
    ensures
        match combine_shape(op, Shape::Int(a@), Shape::Int(b@)) {
            Ok(s) => r matches Ok(v) && v.shape() == s,
            Err(f) => r matches Err(m) && m@ == failure_text(f),
        },
{
    let cells = par_zip_int(op, a, b);
    let ghost n = min_len(a@.len(), b@.len());
    let mut out: Vec<i64> = Vec::new();
    let mut i: usize = 0;
    while i < cells.len()
        invariant
            i <= cells@.len(),
            cells@.len() == n,
            n == min_len(a@.len(), b@.len()),
            forall|k: int| 0 <= k < cells@.len() ==> match #[trigger] cells@[k] {
                Some(v) => fits_i64(int_op(op, a@[k] as int, b@[k] as int)) && v as int == int_op(op, a@[k] as int, b@[k] as int),
                None => !fits_i64(int_op(op, a@[k] as int, b@[k] as int)),
            },
            out@.len() == i,
            forall|k: int| 0 <= k < i ==> fits_i64(#[trigger] int_op(op, a@[k] as int, b@[k] as int))
                && out@[k] as int == int_op(op, a@[k] as int, b@[k] as int),
        decreases cells@.len() - i,
    {
        match cells[i] {
            Some(v) => {
                out.push(v);
            },
            None => {
                assert(!fits_i64(int_op(op, a@[i as int] as int, b@[i as int] as int)));
                return Err(String::from_str("Integer overflow"));
            },
        }
        i = i + 1;
    }
    let r = Var::IntV(out);
    assert(r.shape() == Shape::Int(Seq::new(n, |k: int| int_op(op, a@[k] as int, b@[k] as int) as i64))) by {
        assert(out@ =~= Seq::new(n, |k: int| int_op(op, a@[k] as int, b@[k] as int) as i64));
    }
    Ok(r)
}

/// Applies a binary operator to two values by the promotion table: integers with
/// integers give integers, any pairing of integers and floats gives floats, and
/// anything with a boolean fails; the result is as long as the shorter operand.
pub fn combine<K: FloatKernel>(op: ArithOp, l: &Var, r: &Var) -> (res: Result<Var, String>)
    ensures
        match combine_shape(op, l.shape(), r.shape()) {
            Ok(s) => res matches Ok(v) && v.shape() == s,
            Err(f) => res matches Err(m) && m@ == failure_text(f),
        },
{
    match (l, r) {
        (Var::IntV(a), Var::IntV(b)) => zip_int(op, a, b),
        (Var::FloatV(a), Var::FloatV(b)) => Ok(Var::FloatV(par_zip_float::<K>(op, a, b))),
        (Var::IntV(a), Var::FloatV(b)) => {
            let pa = promote::<K>(a);
            Ok(Var::FloatV(par_zip_float::<K>(op, &pa, b)))
        },
        (Var::FloatV(a), Var::IntV(b)) => {
            let pb = promote::<K>(b);
            Ok(Var::FloatV(par_zip_float::<K>(op, a, &pb)))
        },
        _ => Err(String::from_str("Invalid types")),
    }
}

broadcast use vstd::std_specs::vec::axiom_vec_index_decreases;

/// A node of the execution graph. A binary node names the two mailboxes it reads.
pub enum NodeOp {
    Constant(Term),
    Binary(ArithOp, usize, usize),
}

/// A subscription to a node: the mailbox that its value is delivered to.
#[derive(Debug)]
pub struct Receiver {
    id: usize,
}

/// An arena of operator nodes wired by mailboxes.
///
/// Each mailbox is fed by one node (its source) and is filled once that node is
/// computed. A binary node reads mailboxes fed by nodes of lower index, so
/// computing in index order respects every dependency.
pub struct ExecutionGraph {
    ops: Vec<NodeOp>,
    sources: Vec<usize>,
    mailboxes: Vec<Option<Var>>,
    root: usize,
    computed: bool,
}

pub open spec fn term_shape(t: Term) -> Result<Shape, Failure> {
    match t {
        Term::IntV(i) => Ok(Shape::Int(seq![i])),
        Term::FloatV(_) => Ok(Shape::Float(1)),
        Term::BoolV(b) => Ok(Shape::Bool(seq![b])),
        Term::Var(_) => Err(Failure::InvalidTypes),
    }
}

pub open spec fn token_op(t: Token) -> Option<ArithOp> {
    match t {
        Token::Plus => Some(ArithOp::Add),
        Token::Mul => Some(ArithOp::Mul),
        Token::Neg => Some(ArithOp::Sub),
        _ => None,
    }
}

/// Whether an expression tree compiles: literals, and the three arithmetic
/// operators with exactly two compilable operands. Variables do not compile.
pub open spec fn buildable(n: &ParseNode) -> bool
    decreases n,
{
    match n.token {
        Token::Term(t) => match t {
            Term::Var(_) => false,
            Term::FloatV(text) => crate::lexer::is_float_text(text@),
            _ => true,
        },
        _ => token_op(n.token) is Some && n.dependencies.len() == 2 && buildable(&n.dependencies[0])
            && buildable(&n.dependencies[1]),
    }
}

pub open spec fn join_outcomes(op: ArithOp, a: Result<Shape, Failure>, b: Result<Shape, Failure>) -> Result<Shape, Failure> {
    match (a, b) {
        (Ok(x), Ok(y)) => combine_shape(op, x, y),
        (Err(e), _) => Err(e),
        (_, Err(e)) => Err(e),
    }
}

/// What evaluating a compilable tree gives, by the promotion table.
pub open spec fn denote(n: &ParseNode) -> Result<Shape, Failure>
    decreases n,
{
    match n.token {
        Token::Term(t) => term_shape(t),
        _ => if n.dependencies.len() == 2 {
            match token_op(n.token) {
                Some(op) => join_outcomes(op, denote(&n.dependencies[0]), denote(&n.dependencies[1])),
                None => Err(Failure::InvalidTypes),
            }
        } else {
            Err(Failure::InvalidTypes)
        },
    }
}

pub open spec fn sterm_shape(t: STerm) -> Result<Shape, Failure> {
    match t {
        STerm::IntV(i) => Ok(Shape::Int(seq![i])),
        STerm::FloatV(_) => Ok(Shape::Float(1)),
        STerm::BoolV(b) => Ok(Shape::Bool(seq![b])),
        STerm::Var(_) => Err(Failure::InvalidTypes),
    }
}

pub open spec fn stoken_op(t: SToken) -> Option<ArithOp> {
    match t {
        SToken::Plus => Some(ArithOp::Add),
        SToken::Mul => Some(ArithOp::Mul),
        SToken::Neg => Some(ArithOp::Sub),
        _ => None,
    }
}

/// Whether a tree model compiles (as `buildable`).
pub open spec fn tree_buildable(n: SNode) -> bool
    decreases n,
{
    match n.token {
        SToken::Term(t) => match t {
            STerm::Var(_) => false,
            STerm::FloatV(text) => crate::lexer::is_float_text(text),
            _ => true,
        },
        _ => stoken_op(n.token) is Some && n.deps.len() == 2 && tree_buildable(n.deps[0]) && tree_buildable(n.deps[1]),
    }
}

/// The value of a tree model (as `denote`).
pub open spec fn tree_value(n: SNode) -> Result<Shape, Failure>
    decreases n,
{
    match n.token {
        SToken::Term(t) => sterm_shape(t),
        _ => if n.deps.len() == 2 {
            match stoken_op(n.token) {
                Some(op) => join_outcomes(op, tree_value(n.deps[0]), tree_value(n.deps[1])),
                None => Err(Failure::InvalidTypes),
            }
        } else {
            Err(Failure::InvalidTypes)
        },
    }
}

/// The node count of a tree model (as `tree_size`).
pub open spec fn tree_nodes(n: SNode) -> nat
    decreases n,
{
    if !(n.token is Term) && n.deps.len() == 2 {
        1 + tree_nodes(n.deps[0]) + tree_nodes(n.deps[1])
    } else {
        1
    }
}

/// On a well-formed tree, compiling, evaluating and counting depend on its model alone.
pub proof fn lemma_tree_model(n: &ParseNode)
    requires
        well_formed(n),
    ensures
        buildable(n) == tree_buildable(n.view()),
        denote(n) == tree_value(n.view()),
        tree_size(n) == tree_nodes(n.view()),
    decreases n,
{
    let v = n.view();
    assert(v.deps.len() == n.dependencies.len());
    if n.dependencies.len() >= 1 {
        lemma_tree_model(&n.dependencies[0]);
    }
    if n.dependencies.len() >= 2 {
        lemma_tree_model(&n.dependencies[1]);
    }
    match n.token {
        Token::Term(t) => {
            assert(sterm_shape(t.view()) == term_shape(t));
        },
        _ => {
            assert(stoken_op(n.token.view()) == token_op(n.token));
        },
    }
}

pub open spec fn tree_size(n: &ParseNode) -> nat
    decreases n,
{
    if !(n.token is Term) && n.dependencies.len() == 2 {
        1 + tree_size(&n.dependencies[0]) + tree_size(&n.dependencies[1])
    } else {
        1
    }
}

/// The outcome of node `i` of a graph given by its nodes and its mailboxes' sources.
#[verifier::opaque]
pub open spec fn outcome_of(ops: Seq<NodeOp>, sources: Seq<usize>, i: int) -> Result<Shape, Failure>
    decreases i,
{
    if i < 0 || i >= ops.len() {
        Err(Failure::InvalidTypes)
    } else {
        match ops[i] {
            NodeOp::Constant(t) => term_shape(t),
            NodeOp::Binary(op, lm, rm) => {
                if lm < sources.len() && rm < sources.len() && sources[lm as int] < i && sources[rm as int] < i {
                    join_outcomes(op, outcome_of(ops, sources, sources[lm as int] as int),
                        outcome_of(ops, sources, sources[rm as int] as int))
                } else {
                    Err(Failure::InvalidTypes)
                }
            },
        }
    }
}

pub open spec fn wiring_ok(ops: Seq<NodeOp>, sources: Seq<usize>) -> bool {
    &&& forall|m: int| 0 <= m < sources.len() ==> #[trigger] sources[m] < ops.len()
    &&& forall|i: int| 0 <= i < ops.len() ==> match #[trigger] ops[i] {
        NodeOp::Binary(_, lm, rm) => lm < sources.len() && rm < sources.len()
            && sources[lm as int] < i && sources[rm as int] < i,
        NodeOp::Constant(t) => !(t is Var) && (t matches Term::FloatV(x) ==> crate::lexer::is_float_text(x@)),
    }
}

/// Node `op` reads mailbox `m`.
pub open spec fn reads(op: NodeOp, m: int) -> bool {
    match op {
        NodeOp::Binary(_, lm, rm) => lm == m || rm == m,
        NodeOp::Constant(_) => false,
    }
}

/// Node `i` feeds, through some mailbox, a node of higher index.
pub open spec fn feeds_above(ops: Seq<NodeOp>, sources: Seq<usize>, i: int) -> bool {
    exists|m: int, c: int|
        0 <= m < sources.len() && #[trigger] sources[m] == i && i < c < ops.len() && reads(#[trigger] ops[c], m)
}

/// Every node in `lo..hi` feeds a node of higher index.
pub open spec fn feeds_up(ops: Seq<NodeOp>, sources: Seq<usize>, lo: int, hi: int) -> bool {
    forall|i: int| lo <= i < hi ==> #[trigger] feeds_above(ops, sources, i)
}

proof fn lemma_feeds_frame(ops: Seq<NodeOp>, sources: Seq<usize>, ops2: Seq<NodeOp>, sources2: Seq<usize>, lo: int, hi: int)
    requires
        feeds_up(ops, sources, lo, hi),
        ops.len() <= ops2.len(),
        sources.len() <= sources2.len(),
        forall|k: int| 0 <= k < ops.len() ==> ops2[k] == ops[k],
        forall|k: int| 0 <= k < sources.len() ==> sources2[k] == sources[k],
    ensures
        feeds_up(ops2, sources2, lo, hi),
{
    assert forall|i: int| lo <= i < hi implies #[trigger] feeds_above(ops2, sources2, i) by {
        assert(feeds_above(ops, sources, i));
        let (m, c) = choose|m: int, c: int|
            0 <= m < sources.len() && #[trigger] sources[m] == i && i < c < ops.len() && reads(#[trigger] ops[c], m);
        assert(sources2[m] == i && ops2[c] == ops[c]);
    }
}

/// The nodes that feed node `i` are done.
pub open spec fn operands_done(ops: Seq<NodeOp>, sources: Seq<usize>, done: Seq<bool>, i: int) -> bool {
    match ops[i] {
        NodeOp::Binary(_, lm, rm) => done[sources[lm as int] as int] && done[sources[rm as int] as int],
        NodeOp::Constant(_) => true,
    }
}

/// A node is done only after the nodes that feed it.
pub open spec fn done_closed(ops: Seq<NodeOp>, sources: Seq<usize>, done: Seq<bool>) -> bool {
    forall|c: int, m: int| 0 <= c < ops.len() && 0 <= m < sources.len() && done[c] && #[trigger] reads(ops[c], m)
        ==> done[sources[m] as int]
}

proof fn lemma_root_done_first(ops: Seq<NodeOp>, sources: Seq<usize>, done: Seq<bool>, root: int, i: int)
    requires
        root + 1 == ops.len(),
        done.len() == ops.len(),
        feeds_up(ops, sources, 0, root),
        done_closed(ops, sources, done),
        done[root],
        0 <= i <= root,
    ensures
        done[i],
    decreases root - i,
{
    if i < root {
        assert(feeds_above(ops, sources, i));
        let (m, c) = choose|m: int, c: int|
            0 <= m < sources.len() && #[trigger] sources[m] == i && i < c < ops.len() && reads(#[trigger] ops[c], m);
        lemma_root_done_first(ops, sources, done, root, c);
    }
}

proof fn lemma_outcome_frame(ops: Seq<NodeOp>, sources: Seq<usize>, ops2: Seq<NodeOp>, sources2: Seq<usize>, i: int)
    requires
        ops.len() <= ops2.len(),
        sources.len() <= sources2.len(),
        forall|k: int| 0 <= k < ops.len() ==> ops2[k] == ops[k],
        forall|k: int| 0 <= k < sources.len() ==> sources2[k] == sources[k],
        wiring_ok(ops, sources),
        0 <= i < ops.len(),
    ensures
        outcome_of(ops2, sources2, i) == outcome_of(ops, sources, i),
    decreases i,
{
    reveal(outcome_of);
    match ops[i] {
        NodeOp::Constant(_) => {},
        NodeOp::Binary(op, lm, rm) => {
            lemma_outcome_frame(ops, sources, ops2, sources2, sources[lm as int] as int);
            lemma_outcome_frame(ops, sources, ops2, sources2, sources[rm as int] as int);
        },
    }
}

/// The size of a tree, where it is at most `limit`.
fn bounded_size(node: &ParseNode, limit: usize) -> (r: Option<usize>)
    ensures
        match r {
            Some(n) => n == tree_size(node) && n <= limit,
            None => tree_size(node) > limit,
        },
    decreases node,
{
    if limit == 0 {
        return None;
    }
    if let Token::Term(_) = node.token {
        return Some(1);
    }
    if node.dependencies.len() != 2 {
        return Some(1);
    }
    let a = bounded_size(&node.dependencies[0], limit - 1)?;
    let b = bounded_size(&node.dependencies[1], limit - 1 - a)?;
    Some(1 + a + b)
}

impl Receiver {
    pub closed spec fn id(&self) -> nat {
        self.id as nat
    }
}

impl ExecutionGraph {
    pub closed spec fn node_count(&self) -> nat {
        self.ops@.len()
    }

    pub closed spec fn mailbox_count(&self) -> nat {
        self.mailboxes@.len()
    }

    pub closed spec fn root(&self) -> nat {
        self.root as nat
    }

    pub closed spec fn is_computed(&self) -> bool {
        self.computed
    }

    /// The node that feeds mailbox `m`.
    pub closed spec fn source(&self, m: int) -> nat {
        self.sources@[m] as nat
    }

    /// What mailbox `m` holds.
    pub closed spec fn mailbox(&self, m: int) -> Option<Var> {
        self.mailboxes@[m]
    }

    /// The outcome of node `i`: its value's shape, or why it fails.
    pub closed spec fn outcome(&self, i: int) -> Result<Shape, Failure> {
        outcome_of(self.ops@, self.sources@, i)
    }

    pub closed spec fn wf(&self) -> bool {
        &&& self.sources@.len() == self.mailboxes@.len()
        &&& self.root + 1 == self.ops@.len()
        &&& wiring_ok(self.ops@, self.sources@)
        &&& feeds_up(self.ops@, self.sources@, 0, self.root as int)
    }

    /// Every node other than the root feeds a node of higher index, and the root
    /// is the last node: so every node is a transitive dependency of the root.
    pub closed spec fn feeds_root(&self) -> bool {
        &&& self.root + 1 == self.ops@.len()
        &&& feeds_up(self.ops@, self.sources@, 0, self.root as int)
    }

    /// Node `i` is the first, in index order, whose outcome is a failure, and `text` describes it.
    pub open spec fn fails_first_at(&self, i: int, text: Seq<char>) -> bool {
        &&& 0 <= i < self.node_count()
        &&& forall|j: int| 0 <= j < i ==> (#[trigger] self.outcome(j)) is Ok
        &&& (self.outcome(i) matches Err(f) && text == failure_text(f))
    }

    /// `text` describes the first node, in index order, that fails.
    pub open spec fn first_failure_is(&self, text: Seq<char>) -> bool {
        exists|i: int| #[trigger] self.fails_first_at(i, text)
    }

    /// `after` holds what `self` held in every mailbox fed by the root: no partial result.
    pub open spec fn root_untouched(&self, after: &Self) -> bool {
        forall|m: int| 0 <= m < self.mailbox_count() && #[trigger] self.source(m) == self.root()
            ==> after.mailbox(m) == self.mailbox(m)
    }

    /// The root is a constant.
    pub closed spec fn root_is_constant(&self) -> bool {
        self.ops@[self.root as int] is Constant
    }

    /// Every node computes without failure.
    pub closed spec fn all_ok(&self) -> bool {
        forall|i: int| 0 <= i < self.ops@.len() ==> (#[trigger] self.outcome(i)) is Ok
    }

    /// Every mailbox holds the value of its source, and mailboxes of one source hold equal values.
    pub closed spec fn delivered(&self) -> bool {
        &&& forall|m: int| 0 <= m < self.mailboxes@.len() ==> match #[trigger] self.mailboxes@[m] {
            Some(v) => self.outcome(self.sources@[m] as int) == Ok::<Shape, Failure>(v.shape()),
            None => false,
        }
        &&& forall|m1: int, m2: int|
            0 <= m1 < self.mailboxes@.len() && 0 <= m2 < self.mailboxes@.len()
                && #[trigger] self.sources@[m1] == #[trigger] self.sources@[m2]
                ==> self.mailboxes@[m1].unwrap().same_as(&self.mailboxes@[m2].unwrap())
    }

    /// Compiles an expression tree into a graph whose root computes the whole expression.
    /// Fails where the tree does not compile, or is too large to number its nodes.
    pub fn build_execution_graph(node: &ParseNode) -> (r: Result<Self, ()>)
        ensures
            r is Ok <==> buildable(node) && 3 * tree_size(node) < usize::MAX,
            match r {
                Ok(g) => g.wf() && !g.is_computed() && g.node_count() == tree_size(node) && g.root() < g.node_count()
                    && (g.all_ok() <==> denote(node) is Ok)
                    && g.mailbox_count() + 1 == g.node_count()
                    && (forall|m: int| 0 <= m < g.mailbox_count() ==> #[trigger] g.source(m) < g.root())
                    && g.feeds_root()
                    && (g.root_is_constant() <==> node.token is Term)
                    && g.outcome(g.root() as int) == denote(node)
                    && forall|m: int| 0 <= m < g.mailbox_count() ==> (#[trigger] g.mailbox(m)) is None,
                Err(_) => true,
            },
    {
        match bounded_size(node, (usize::MAX - 1) / 3) {
            Some(_) => {},
            None => {
                return Err(());
            },
        }
        let mut ops: Vec<NodeOp> = Vec::new();
        let mut sources: Vec<usize> = Vec::new();
        let root = Self::add_tree(&mut ops, &mut sources, node)?;
        let mut mailboxes: Vec<Option<Var>> = Vec::new();
        let mut m: usize = 0;
        while m < sources.len()
            invariant
                m <= sources@.len(),
                mailboxes@.len() == m,
                forall|k: int| 0 <= k < m ==> (#[trigger] mailboxes@[k]) is None,
            decreases sources@.len() - m,
        {
            mailboxes.push(None);
            m = m + 1;
        }
        Ok(ExecutionGraph { ops, sources, mailboxes, root, computed: false })
    }

    /// Registers a new mailbox fed by the root node and returns its handle;
    /// `None` only where no further mailbox can be numbered.
    pub fn subscribe(&mut self) -> (r: Option<Receiver>)
        requires
            old(self).wf(),
        ensures
            final(self).wf(),
            final(self).node_count() == old(self).node_count(),
            final(self).root() == old(self).root(),
            final(self).is_computed() == old(self).is_computed(),
            final(self).all_ok() == old(self).all_ok(),
            forall|i: int| 0 <= i < old(self).node_count() ==> #[trigger] final(self).outcome(i) == old(self).outcome(i),
            forall|m: int| 0 <= m < old(self).mailbox_count() ==> #[trigger] final(self).mailbox(m) == old(self).mailbox(m)
                && final(self).source(m) == old(self).source(m),
            r is None <==> old(self).mailbox_count() == usize::MAX,
            match r {
                Some(h) => h.id() == old(self).mailbox_count() && final(self).mailbox_count() == h.id() + 1
                    && final(self).source(h.id() as int) == old(self).root() && final(self).mailbox(h.id() as int) is None,
                None => final(self).mailbox_count() == old(self).mailbox_count(),
            },
    {
        if self.mailboxes.len() == usize::MAX {
            return None;
        }
        let id = self.mailboxes.len();
        let ghost src0 = self.sources@;
        self.sources.push(self.root);
        self.mailboxes.push(None);
        proof {
            lemma_feeds_frame(self.ops@, src0, self.ops@, self.sources@, 0, self.root as int);
            assert forall|i: int| 0 <= i < self.ops@.len() implies #[trigger] outcome_of(self.ops@, self.sources@, i)
                == outcome_of(self.ops@, src0, i) by {
                lemma_outcome_frame(self.ops@, src0, self.ops@, self.sources@, i);
            }
            assert(self.all_ok() == old(self).all_ok()) by {
                if old(self).all_ok() {
                    assert forall|i: int| 0 <= i < self.ops@.len() implies (#[trigger] self.outcome(i)) is Ok by {
                        assert(old(self).outcome(i) is Ok);
                    }
                }
                if self.all_ok() {
                    assert forall|i: int| 0 <= i < old(self).ops@.len() implies (#[trigger] old(self).outcome(i)) is Ok by {
                        assert(self.outcome(i) is Ok);
                    }
                }
            }
        }
        Some(Receiver { id })
    }

    fn constant_value<K: FloatKernel>(t: &Term) -> (r: Var)
        requires
            !(*t is Var),
        ensures
            term_shape(*t) == Ok::<Shape, Failure>(r.shape()),
    {
        match t {
            Term::IntV(i) => {
                let r = Var::IntV(vec![*i]);
                assert(r.shape() == Shape::Int(seq![*i])) by {
                    if let Var::IntV(v) = r {
                        assert(v@ =~= seq![*i]);
                    }
                }
                r
            },
            Term::BoolV(b) => {
                let r = Var::BoolV(vec![*b]);
                assert(r.shape() == Shape::Bool(seq![*b])) by {
                    if let Var::BoolV(v) = r {
                        assert(v@ =~= seq![*b]);
                    }
                }
                r
            },
            Term::FloatV(text) => Var::FloatV(vec![K::from_literal(text.as_str())]),
            Term::Var(_) => Var::BoolV(Vec::new()),
        }
    }

    /// Mailbox `m` holds the value of its source.
    spec fn holds_value(&self, m: int) -> bool {
        match self.mailboxes@[m] {
            Some(v) => self.outcome(self.sources@[m] as int) == Ok::<Shape, Failure>(v.shape()),
            None => false,
        }
    }

    /// The mailboxes that node `i` reads hold their sources' values.
    spec fn inputs_ready(&self, i: int) -> bool {
        match self.ops@[i] {
            NodeOp::Binary(_, lm, rm) => self.holds_value(lm as int) && self.holds_value(rm as int),
            NodeOp::Constant(_) => true,
        }
    }

    /// The value of node `i`, from the mailboxes it reads.
    fn node_value<K: FloatKernel>(&self, i: usize) -> (r: Result<Var, String>)
        requires
            self.wf(),
            i < self.ops@.len(),
            self.inputs_ready(i as int),
        ensures
            match r {
                Ok(v) => self.outcome(i as int) == Ok::<Shape, Failure>(v.shape()),
                Err(e) => self.outcome(i as int) matches Err(f) && e@ == failure_text(f),
            },
    {
        reveal(outcome_of);
        assert(wiring_ok(self.ops@, self.sources@));
        match &self.ops[i] {
            NodeOp::Constant(t) => {
                assert(self.ops@[i as int] == NodeOp::Constant(*t));
                Ok(Self::constant_value::<K>(t))
            },
            NodeOp::Binary(op, lm, rm) => {
                assert(self.ops@[i as int] == NodeOp::Binary(*op, *lm, *rm));
                let lv = match &self.mailboxes[*lm] {
                    Some(x) => x,
                    None => {
                        return Err(String::from_str("Failed to receive"));
                    },
                };
                let rv = match &self.mailboxes[*rm] {
                    Some(x) => x,
                    None => {
                        return Err(String::from_str("Failed to receive"));
                    },
                };
                combine::<K>(*op, lv, rv)
            },
        }
    }

    /// Computes every node once, operands before the nodes that read them, and
    /// delivers each node's value to every mailbox it feeds. Stops at the first
    /// node that fails. A graph is computed at most once.
    pub fn initialize<K: FloatKernel>(&mut self) -> (r: Result<(), String>)
        requires
            old(self).wf(),
        ensures
            final(self).wf(),
            final(self).node_count() == old(self).node_count(),
            final(self).root() == old(self).root(),
            final(self).mailbox_count() == old(self).mailbox_count(),
            forall|i: int| 0 <= i < old(self).node_count() ==> #[trigger] final(self).outcome(i) == old(self).outcome(i),
            forall|m: int| 0 <= m < old(self).mailbox_count() ==> #[trigger] final(self).source(m) == old(self).source(m),
            final(self).is_computed(),
            old(self).is_computed() ==> r is Err && *final(self) == *old(self),
            !old(self).is_computed() ==> (r is Ok <==> old(self).all_ok()),
            r is Ok ==> final(self).delivered(),
            !old(self).is_computed() && r is Err ==> old(self).root_untouched(final(self)),
            !old(self).is_computed() ==> match r {
                Err(e) => old(self).first_failure_is(e@),
                Ok(_) => true,
            },
    {
        if self.computed {
            return Err(String::from_str("Graph already computed"));
        }
        self.computed = true;
        let n = self.ops.len();
        let mut done = Self::nothing_done(n);
        proof {
            reveal(ExecutionGraph::settled);
        }
        let mut i: usize = 0;
        while i < n
            invariant
                self.wf(),
                self.computed,
                !old(self).computed,
                n == self.ops@.len(),
                self.ops@ == old(self).ops@,
                self.sources@ == old(self).sources@,
                self.mailboxes@.len() == old(self).mailboxes@.len(),
                self.root == old(self).root,
                i <= n,
                done@.len() == n,
                forall|j: int| 0 <= j < n ==> (#[trigger] done@[j] <==> j < i),
                self.settled(done@),
                forall|m: int| 0 <= m < self.mailboxes@.len() && self.sources@[m] >= i
                    ==> #[trigger] self.mailboxes@[m] == old(self).mailboxes@[m],
            decreases n - i,
        {
            proof {
                assert(wiring_ok(self.ops@, self.sources@));
                match self.ops@[i as int] {
                    NodeOp::Binary(_, lm, rm) => {
                        assert(self.sources@[lm as int] < i && self.sources@[rm as int] < i);
                    },
                    NodeOp::Constant(_) => {},
                }
                self.lemma_ready_when_done(done@, i as int);
            }
            match self.node_value::<K>(i) {
                Ok(v) => {
                    self.settle(&mut done, i, &v);
                },
                Err(e) => {
                    assert(!old(self).all_ok()) by {
                        assert(old(self).outcome(i as int) == self.outcome(i as int));
                    }
                    assert(old(self).fails_first_at(i as int, e@)) by {
                        assert forall|j: int| 0 <= j < i implies (#[trigger] old(self).outcome(j)) is Ok by {
                            assert(old(self).outcome(j) == self.outcome(j));
                            reveal(ExecutionGraph::settled);
                            assert(done@[j]);
                        }
                        assert(old(self).outcome(i as int) == self.outcome(i as int));
                    }
                    assert(old(self).first_failure_is(e@));
                    assert(old(self).root_untouched(self));
                    return Err(e);
                },
            }
            i = i + 1;
        }
        proof {
            self.lemma_all_settled(done@);
            assert forall|j: int| 0 <= j < old(self).ops@.len() implies (#[trigger] old(self).outcome(j)) is Ok by {
                assert(old(self).outcome(j) == self.outcome(j));
            }
        }
        Ok(())
    }

    /// A mark per node, none set.
    fn nothing_done(n: usize) -> (done: Vec<bool>)
        ensures
            done@.len() == n,
            forall|j: int| 0 <= j < n ==> !(#[trigger] done@[j]),
    {
        let mut done: Vec<bool> = Vec::new();
        while done.len() < n
            invariant
                done@.len() <= n,
                forall|j: int| 0 <= j < done@.len() ==> !(#[trigger] done@[j]),
            decreases n - done@.len(),
        {
            done.push(false);
        }
        done
    }

    /// Every node marked done has delivered its value to all the mailboxes it feeds.
    #[verifier::opaque]
    spec fn settled(&self, done: Seq<bool>) -> bool {
        &&& done.len() == self.ops@.len()
        &&& forall|m: int| 0 <= m < self.mailboxes@.len() && #[trigger] done[self.sources@[m] as int] ==> self.holds_value(m)
        &&& forall|m1: int, m2: int|
            0 <= m1 < self.mailboxes@.len() && 0 <= m2 < self.mailboxes@.len()
                && #[trigger] self.sources@[m1] == #[trigger] self.sources@[m2] && done[self.sources@[m1] as int]
                ==> self.mailboxes@[m1].unwrap().same_as(&self.mailboxes@[m2].unwrap())
        &&& forall|j: int| 0 <= j < done.len() && #[trigger] done[j] ==> self.outcome(j) is Ok
    }

    proof fn lemma_ready_when_done(&self, done: Seq<bool>, i: int)
        requires
            self.wf(),
            self.settled(done),
            0 <= i < self.ops@.len(),
            match self.ops@[i] {
                NodeOp::Binary(_, lm, rm) => done[self.sources@[lm as int] as int] && done[self.sources@[rm as int] as int],
                NodeOp::Constant(_) => true,
            },
        ensures
            self.inputs_ready(i),
    {
        reveal(ExecutionGraph::settled);
        assert(wiring_ok(self.ops@, self.sources@));
        match self.ops@[i] {
            NodeOp::Binary(_, lm, rm) => {
                assert(done[self.sources@[lm as int] as int]);
                assert(done[self.sources@[rm as int] as int]);
            },
            NodeOp::Constant(_) => {},
        }
    }

    /// Relies on rayon's `par_iter().map(..).collect()` on a vector: one result per node
    /// index, collected in order; each is computed by `node_value`.
    #[verifier::external_body]
    fn par_node_values<K: FloatKernel>(&self, ids: &Vec<usize>) -> (r: Vec<Result<Var, String>>)
        requires
            self.wf(),
            forall|k: int| 0 <= k < ids@.len() ==> #[trigger] ids@[k] < self.ops@.len() && self.inputs_ready(ids@[k] as int),
        ensures
            r@.len() == ids@.len(),
            forall|k: int| 0 <= k < ids@.len() ==> match #[trigger] r@[k] {
                Ok(v) => self.outcome(ids@[k] as int) == Ok::<Shape, Failure>(v.shape()),
                Err(_) => self.outcome(ids@[k] as int) is Err,
            },
    {
        ids.par_iter().map(|i| self.node_value::<K>(*i)).collect()
    }

    /// Puts a copy of `v` into every mailbox that node `i` feeds, and marks `i` done.
    fn settle(&mut self, done: &mut Vec<bool>, i: usize, v: &Var)
        requires
            old(self).wf(),
            i < old(self).ops@.len(),
            old(self).outcome(i as int) == Ok::<Shape, Failure>(v.shape()),
            old(self).settled(old(done)@),
        ensures
            final(self).wf(),
            final(self).ops@ == old(self).ops@,
            final(self).sources@ == old(self).sources@,
            final(self).root == old(self).root,
            final(self).computed == old(self).computed,
            final(done)@ == old(done)@.update(i as int, true),
            final(self).settled(final(done)@),
            final(self).mailboxes@.len() == old(self).mailboxes@.len(),
            forall|m: int| 0 <= m < old(self).mailboxes@.len() && old(self).sources@[m] != i
                ==> #[trigger] final(self).mailboxes@[m] == old(self).mailboxes@[m],
    {
        reveal(ExecutionGraph::settled);
        let ghost before = self.mailboxes@;
        let ghost d0 = done@;
        let total = self.mailboxes.len();
        let mut m: usize = 0;
        while m < total
            invariant
                self.wf(),
                self.ops@ == old(self).ops@,
                self.sources@ == old(self).sources@,
                self.root == old(self).root,
                self.computed == old(self).computed,
                total == self.mailboxes@.len(),
                total == before.len(),
                before == old(self).mailboxes@,
                m <= total,
                forall|k: int| 0 <= k < m && #[trigger] self.sources@[k] == i ==> match self.mailboxes@[k] {
                    Some(x) => x.same_as(v) && x.shape() == v.shape(),
                    None => false,
                },
                forall|k: int| 0 <= k < total && !(k < m && self.sources@[k] == i) ==> #[trigger] self.mailboxes@[k] == before[k],
            decreases total - m,
        {
            if self.sources[m] == i {
                self.mailboxes.set(m, Some(v.duplicate()));
            }
            m = m + 1;
        }
        done.set(i, true);
        let ghost d = done@;
        assert(wiring_ok(self.ops@, self.sources@));
        assert forall|k: int| 0 <= k < self.mailboxes@.len() && #[trigger] d[self.sources@[k] as int] implies self.holds_value(k) by {
            if self.sources@[k] != i {
                assert(self.mailboxes@[k] == before[k]);
                assert(d0[self.sources@[k] as int]);
            }
        }
        assert forall|m1: int, m2: int|
            0 <= m1 < self.mailboxes@.len() && 0 <= m2 < self.mailboxes@.len()
                && #[trigger] self.sources@[m1] == #[trigger] self.sources@[m2] && d[self.sources@[m1] as int]
                implies self.mailboxes@[m1].unwrap().same_as(&self.mailboxes@[m2].unwrap()) by {
            if self.sources@[m1] != i {
                assert(self.mailboxes@[m1] == before[m1]);
                assert(self.mailboxes@[m2] == before[m2]);
                assert(d0[self.sources@[m1] as int]);
            } else {
                let x1 = self.mailboxes@[m1].unwrap();
                let x2 = self.mailboxes@[m2].unwrap();
                assert(x1.same_as(v) && x2.same_as(v));
            }
        }
        assert forall|j: int| 0 <= j < d.len() && #[trigger] d[j] implies self.outcome(j) is Ok by {
            if j != i {
                assert(d0[j]);
            }
        }
    }

    /// The nodes not yet done whose operands are all done, in index order.
    fn ready_nodes(&self, done: &Vec<bool>) -> (ids: Vec<usize>)
        requires
            self.wf(),
            self.settled(done@),
        ensures
            forall|k: int| 0 <= k < ids@.len() ==> #[trigger] ids@[k] < self.ops@.len() && self.inputs_ready(ids@[k] as int)
                && !done@[ids@[k] as int] && operands_done(self.ops@, self.sources@, done@, ids@[k] as int),
            forall|k1: int, k2: int| 0 <= k1 < k2 < ids@.len() ==> #[trigger] ids@[k1] < #[trigger] ids@[k2],
            forall|j: int| 0 <= j < self.ops@.len() && !done@[j] && (match self.ops@[j] {
                NodeOp::Binary(_, lm, rm) => done@[self.sources@[lm as int] as int] && done@[self.sources@[rm as int] as int],
                NodeOp::Constant(_) => true,
            }) ==> ids@.contains(j as usize),
    {
        proof {
            reveal(ExecutionGraph::settled);
        }
        assert(wiring_ok(self.ops@, self.sources@));
        let n = self.ops.len();
        let mut ids: Vec<usize> = Vec::new();
        let mut i: usize = 0;
        while i < n
            invariant
                self.wf(),
                self.settled(done@),
                n == self.ops@.len(),
                done@.len() == n,
                i <= n,
                forall|k: int| 0 <= k < ids@.len() ==> #[trigger] ids@[k] < i && self.inputs_ready(ids@[k] as int)
                    && !done@[ids@[k] as int] && operands_done(self.ops@, self.sources@, done@, ids@[k] as int),
                forall|k1: int, k2: int| 0 <= k1 < k2 < ids@.len() ==> #[trigger] ids@[k1] < #[trigger] ids@[k2],
                forall|j: int| 0 <= j < i && !done@[j] && (match self.ops@[j] {
                    NodeOp::Binary(_, lm, rm) => done@[self.sources@[lm as int] as int] && done@[self.sources@[rm as int] as int],
                    NodeOp::Constant(_) => true,
                }) ==> ids@.contains(j as usize),
            decreases n - i,
        {
            if !done[i] {
                let ready = match &self.ops[i] {
                    NodeOp::Binary(_, lm, rm) => done[self.sources[*lm]] && done[self.sources[*rm]],
                    NodeOp::Constant(_) => true,
                };
                if ready {
                    proof {
                        self.lemma_ready_when_done(done@, i as int);
                    }
                    let ghost old_ids = ids@;
                    ids.push(i);
                    assert(ids@[ids@.len() - 1] == i);
                    assert forall|x: usize| old_ids.contains(x) implies ids@.contains(x) by {
                        let k = choose|k: int| 0 <= k < old_ids.len() && old_ids[k] == x;
                        assert(ids@[k] == x);
                    }
                }
            }
            i = i + 1;
        }
        ids
    }

    proof fn lemma_all_settled(&self, done: Seq<bool>)
        requires
            self.wf(),
            self.settled(done),
            forall|j: int| 0 <= j < done.len() ==> #[trigger] done[j],
        ensures
            self.delivered(),
            self.all_ok(),
    {
        reveal(ExecutionGraph::settled);
        assert(wiring_ok(self.ops@, self.sources@));
        assert forall|m: int| 0 <= m < self.mailboxes@.len() implies match #[trigger] self.mailboxes@[m] {
            Some(v) => self.outcome(self.sources@[m] as int) == Ok::<Shape, Failure>(v.shape()),
            None => false,
        } by {
            assert(done[self.sources@[m] as int]);
        }
        assert forall|m1: int, m2: int|
            0 <= m1 < self.mailboxes@.len() && 0 <= m2 < self.mailboxes@.len()
                && #[trigger] self.sources@[m1] == #[trigger] self.sources@[m2]
                implies self.mailboxes@[m1].unwrap().same_as(&self.mailboxes@[m2].unwrap()) by {
            assert(done[self.sources@[m1] as int]);
        }
        assert forall|i: int| 0 <= i < self.ops@.len() implies (#[trigger] self.outcome(i)) is Ok by {
            assert(done[i]);
        }
    }

    /// Computes every node once, in waves: each wave computes in parallel every node
    /// whose operands are already delivered, then delivers the results. A node is only
    /// scheduled once its operands are ready, so no worker ever waits on another.
    /// Fails, after the wave in which it happens, if any node fails. A graph is
    /// computed at most once.
    pub fn initialize_par_iter<K: FloatKernel>(&mut self) -> (r: Result<(), String>)
        requires
            old(self).wf(),
        ensures
            final(self).wf(),
            final(self).node_count() == old(self).node_count(),
            final(self).root() == old(self).root(),
            final(self).mailbox_count() == old(self).mailbox_count(),
            forall|i: int| 0 <= i < old(self).node_count() ==> #[trigger] final(self).outcome(i) == old(self).outcome(i),
            forall|m: int| 0 <= m < old(self).mailbox_count() ==> #[trigger] final(self).source(m) == old(self).source(m),
            final(self).is_computed(),
            old(self).is_computed() ==> r is Err && *final(self) == *old(self),
            !old(self).is_computed() ==> (r is Ok <==> old(self).all_ok()),
            r is Ok ==> final(self).delivered(),
            !old(self).is_computed() && r is Err ==> old(self).root_untouched(final(self)),
            !old(self).is_computed() ==> match r {
                Err(e) => e@ == "Failed initialization"@,
                Ok(_) => true,
            },
    {
        if self.computed {
            return Err(String::from_str("Graph already computed"));
        }
        self.computed = true;
        let n = self.ops.len();
        let mut done = Self::nothing_done(n);
        proof {
            reveal(ExecutionGraph::settled);
        }
        let mut w: usize = 0;
        while w < n
            invariant
                self.wf(),
                self.computed,
                !old(self).computed,
                n == self.ops@.len(),
                self.ops@ == old(self).ops@,
                self.sources@ == old(self).sources@,
                self.mailboxes@.len() == old(self).mailboxes@.len(),
                self.root == old(self).root,
                done@.len() == n,
                self.settled(done@),
                done_closed(self.ops@, self.sources@, done@),
                forall|m: int| 0 <= m < self.mailboxes@.len() && !done@[self.sources@[m] as int]
                    ==> #[trigger] self.mailboxes@[m] == old(self).mailboxes@[m],
                w <= n,
                forall|j: int| 0 <= j < w ==> #[trigger] done@[j],
            decreases n - w,
        {
            let ghost done0 = done@;
            let ids = self.ready_nodes(&done);
            let vals = self.par_node_values::<K>(&ids);
            let ghost g0 = *self;
            let mut q: usize = 0;
            let mut bad: Option<usize> = None;
            while q < vals.len() && bad.is_none()
                invariant
                    q <= vals@.len(),
                    bad is None ==> forall|p: int| 0 <= p < q ==> (#[trigger] vals@[p]) is Ok,
                    bad matches Some(b) ==> b < vals@.len() && vals@[b as int] is Err,
                decreases vals@.len() - q,
            {
                if vals[q].is_err() {
                    bad = Some(q);
                }
                q = q + 1;
            }
            if let Some(b) = bad {
                proof {
                    let i = ids@[b as int] as int;
                    assert(wiring_ok(self.ops@, self.sources@));
                    if done0[self.root as int] {
                        lemma_root_done_first(self.ops@, self.sources@, done0, self.root as int, i);
                    }
                    assert(!done0[self.root as int]);
                    assert(g0.outcome(i) is Err);
                    assert(!old(self).all_ok()) by {
                        assert(old(self).outcome(i) == g0.outcome(i));
                    }
                    assert(old(self).root_untouched(self)) by {
                        assert forall|m: int| 0 <= m < old(self).mailbox_count()
                            && #[trigger] old(self).source(m) == old(self).root()
                            implies self.mailbox(m) == old(self).mailbox(m) by {
                            assert(self.sources@[m] == self.root);
                        }
                    }
                }
                return Err(String::from_str("Failed initialization"));
            }
            let mut k: usize = 0;
            while k < ids.len()
                invariant
                    self.wf(),
                    self.computed,
                    self.ops@ == g0.ops@,
                    self.sources@ == g0.sources@,
                    self.mailboxes@.len() == g0.mailboxes@.len(),
                    self.root == g0.root,
                    g0.ops@ == old(self).ops@,
                    g0.sources@ == old(self).sources@,
                    g0.mailboxes@.len() == old(self).mailboxes@.len(),
                    g0.root == old(self).root,
                    n == self.ops@.len(),
                    done@.len() == n,
                    self.settled(done@),
                    done_closed(self.ops@, self.sources@, done@),
                    forall|m: int| 0 <= m < self.mailboxes@.len() && !done@[self.sources@[m] as int]
                        ==> #[trigger] self.mailboxes@[m] == old(self).mailboxes@[m],
                    k <= ids@.len(),
                    vals@.len() == ids@.len(),
                    forall|p: int| 0 <= p < ids@.len() ==> #[trigger] ids@[p] < n
                        && operands_done(self.ops@, self.sources@, done0, ids@[p] as int),
                    forall|p: int| 0 <= p < ids@.len() ==> match #[trigger] vals@[p] {
                        Ok(v) => g0.outcome(ids@[p] as int) == Ok::<Shape, Failure>(v.shape()),
                        Err(_) => false,
                    },
                    forall|j: int| 0 <= j < n && done0[j] ==> #[trigger] done@[j],
                    forall|p: int| 0 <= p < k ==> #[trigger] done@[ids@[p] as int],
                decreases ids@.len() - k,
            {
                match &vals[k] {
                    Ok(v) => {
                        let ghost d1 = done@;
                        let ghost g1 = *self;
                        assert(self.outcome(ids@[k as int] as int) == g0.outcome(ids@[k as int] as int));
                        self.settle(&mut done, ids[k], v);
                        proof {
                            let i = ids@[k as int] as int;
                            assert(wiring_ok(self.ops@, self.sources@));
                            assert forall|c: int, m: int| 0 <= c < self.ops@.len() && 0 <= m < self.sources@.len()
                                && done@[c] && #[trigger] reads(self.ops@[c], m) implies done@[self.sources@[m] as int] by {
                                if c == i {
                                    assert(operands_done(self.ops@, self.sources@, done0, i));
                                    assert(done0[self.sources@[m] as int]);
                                } else {
                                    assert(d1[c]);
                                }
                            }
                            assert forall|m: int| 0 <= m < self.mailboxes@.len() && !done@[self.sources@[m] as int]
                                implies #[trigger] self.mailboxes@[m] == old(self).mailboxes@[m] by {
                                assert(self.sources@[m] != i);
                                assert(self.mailboxes@[m] == g1.mailboxes@[m]);
                            }
                        }
                    },
                    Err(_) => {},
                }
                k = k + 1;
            }
            proof {
                if !done0[w as int] {
                    assert(wiring_ok(self.ops@, self.sources@));
                    match g0.ops@[w as int] {
                        NodeOp::Binary(_, lm, rm) => {
                            assert(done0[g0.sources@[lm as int] as int]);
                            assert(done0[g0.sources@[rm as int] as int]);
                        },
                        NodeOp::Constant(_) => {},
                    }
                    assert(ids@.contains(w));
                    let q = choose|q: int| 0 <= q < ids@.len() && ids@[q] == w;
                    assert(done@[ids@[q] as int]);
                }
                assert forall|j: int| 0 <= j < w + 1 implies #[trigger] done@[j] by {
                    if j < w {
                        assert(done0[j]);
                    }
                }
            }
            w = w + 1;
        }
        proof {
            self.lemma_all_settled(done@);
            assert forall|j: int| 0 <= j < old(self).ops@.len() implies (#[trigger] old(self).outcome(j)) is Ok by {
                assert(old(self).outcome(j) == self.outcome(j));
            }
        }
        Ok(())
    }

    /// Takes what a mailbox holds, leaving it empty: each delivery is received once.
    pub fn recv(&mut self, h: &Receiver) -> (r: Option<Var>)
        ensures
            final(self).wf() == old(self).wf(),
            final(self).node_count() == old(self).node_count(),
            final(self).root() == old(self).root(),
            final(self).is_computed() == old(self).is_computed(),
            final(self).mailbox_count() == old(self).mailbox_count(),
            forall|i: int| 0 <= i < old(self).node_count() ==> #[trigger] final(self).outcome(i) == old(self).outcome(i),
            forall|m: int| 0 <= m < old(self).mailbox_count() ==> #[trigger] final(self).source(m) == old(self).source(m),
            forall|m: int| 0 <= m < old(self).mailbox_count() && m != h.id() ==> #[trigger] final(self).mailbox(m) == old(self).mailbox(m),
            h.id() < old(self).mailbox_count() ==> r == old(self).mailbox(h.id() as int) && final(self).mailbox(h.id() as int) is None,
            h.id() >= old(self).mailbox_count() ==> r is None,
    {
        if h.id >= self.mailboxes.len() {
            return None;
        }
        let mut out: Option<Var> = None;
        self.mailboxes.set_and_swap(h.id, &mut out);
        out
    }

    fn op_of(t: &Token) -> (r: Option<ArithOp>)
        ensures
            r == token_op(*t),
    {
        match t {
            Token::Plus => Some(ArithOp::Add),
            Token::Mul => Some(ArithOp::Mul),
            Token::Neg => Some(ArithOp::Sub),
            _ => None,
        }
    }

    /// Appends the nodes of a tree, operands first; returns the index of its top node.
    fn add_tree(ops: &mut Vec<NodeOp>, sources: &mut Vec<usize>, node: &ParseNode) -> (r: Result<usize, ()>)
        requires
            wiring_ok(old(ops)@, old(sources)@),
            old(ops)@.len() + tree_size(node) < usize::MAX,
            old(sources)@.len() + 2 * tree_size(node) < usize::MAX,
        ensures
            wiring_ok(final(ops)@, final(sources)@),
            final(sources)@.len() + 2 <= old(sources)@.len() + 2 * tree_size(node),
            old(ops)@.len() <= final(ops)@.len(),
            old(sources)@.len() <= final(sources)@.len(),
            forall|k: int| 0 <= k < old(ops)@.len() ==> final(ops)@[k] == old(ops)@[k],
            forall|k: int| 0 <= k < old(sources)@.len() ==> final(sources)@[k] == old(sources)@[k],
            r is Ok <==> buildable(node),
            match r {
                Ok(i) => i < final(ops)@.len() && outcome_of(final(ops)@, final(sources)@, i as int) == denote(node)
                    && final(ops)@.len() == old(ops)@.len() + tree_size(node)
                    && i + 1 == final(ops)@.len()
                    && final(sources)@.len() + old(ops)@.len() + 1 == old(sources)@.len() + final(ops)@.len()
                    && (forall|m: int| old(sources)@.len() <= m < final(sources)@.len()
                        ==> old(ops)@.len() <= #[trigger] final(sources)@[m] < i)
                    && feeds_up(final(ops)@, final(sources)@, old(ops)@.len() as int, i as int)
                    && (final(ops)@[i as int] is Constant <==> node.token is Term)
                    && (outcome_of(final(ops)@, final(sources)@, i as int) is Ok ==> forall|k: int|
                        old(ops)@.len() <= k < final(ops)@.len() ==> (#[trigger] outcome_of(final(ops)@, final(sources)@, k)) is Ok),
                Err(_) => true,
            },
        decreases node,
    {
        reveal(outcome_of);
        match &node.token {
            Token::Term(t) => {
                match t {
                    Term::Var(_) => {
                        return Err(());
                    },
                    Term::FloatV(x) => {
                        if !crate::lexer::float_text_ok(x.as_str()) {
                            return Err(());
                        }
                    },
                    _ => {},
                }
                let d = t.duplicate();
                assert(term_shape(d) == term_shape(*t)) by {
                    match *t {
                        Term::IntV(_) => { assert(d.view() == t.view()); },
                        Term::BoolV(_) => { assert(d.view() == t.view()); },
                        _ => {},
                    }
                }
                ops.push(NodeOp::Constant(d));
                assert(ops@[ops@.len() - 1] == NodeOp::Constant(d));
                assert(outcome_of(ops@, sources@, ops@.len() - 1) == term_shape(d));
                assert(denote(node) == term_shape(*t));
                Ok(ops.len() - 1)
            },
            _ => {
                let op = match Self::op_of(&node.token) {
                    Some(op) => op,
                    None => {
                        return Err(());
                    },
                };
                if node.dependencies.len() != 2 {
                    return Err(());
                }
                let ghost ops0 = ops@;
                let ghost src0 = sources@;
                let li = Self::add_tree(ops, sources, &node.dependencies[0])?;
                let ghost ops1 = ops@;
                let ghost src1 = sources@;
                let ri = Self::add_tree(ops, sources, &node.dependencies[1])?;
                proof {
                    lemma_outcome_frame(ops1, src1, ops@, sources@, li as int);
                }
                let ghost ops_b = ops@;
                let ghost src_b = sources@;
                let lm = sources.len();
                sources.push(li);
                let rm = sources.len();
                sources.push(ri);
                let ghost ops2 = ops@;
                let ghost src2 = sources@;
                ops.push(NodeOp::Binary(op, lm, rm));
                proof {
                    assert(ops@[ops@.len() - 1] == NodeOp::Binary(op, lm, rm));
                    lemma_outcome_frame(ops_b, src_b, ops@, sources@, li as int);
                    lemma_outcome_frame(ops_b, src_b, ops@, sources@, ri as int);
                    let n = (ops@.len() - 1) as int;
                    assert(sources@[lm as int] == li && sources@[rm as int] == ri);
                    assert(outcome_of(ops@, sources@, n) == join_outcomes(op,
                        outcome_of(ops@, sources@, li as int), outcome_of(ops@, sources@, ri as int)));
                    assert(denote(node) == join_outcomes(op, denote(&node.dependencies[0]), denote(&node.dependencies[1])));
                    lemma_feeds_frame(ops1, src1, ops@, sources@, ops0.len() as int, li as int);
                    lemma_feeds_frame(ops_b, src_b, ops@, sources@, ops1.len() as int, ri as int);
                    assert(sources@[lm as int] == li && reads(ops@[n], lm as int));
                    assert(sources@[rm as int] == ri && reads(ops@[n], rm as int));
                    assert forall|k: int| ops0.len() <= k < n implies #[trigger] feeds_above(ops@, sources@, k) by {
                        if k < li {
                        } else if k == li {
                            assert(sources@[lm as int] == k && reads(ops@[n], lm as int));
                        } else if k < ri {
                        } else {
                            assert(sources@[rm as int] == k && reads(ops@[n], rm as int));
                        }
                    }
                    if outcome_of(ops@, sources@, n) is Ok {
                        assert forall|k: int| old(ops)@.len() <= k < ops@.len()
                            implies (#[trigger] outcome_of(ops@, sources@, k)) is Ok by {
                            if k < ops1.len() {
                                lemma_outcome_frame(ops1, src1, ops_b, src_b, k);
                                lemma_outcome_frame(ops_b, src_b, ops@, sources@, k);
                                assert(outcome_of(ops1, src1, li as int) is Ok);
                            } else if k < ops_b.len() {
                                lemma_outcome_frame(ops_b, src_b, ops@, sources@, k);
                            }
                        }
                    }
                }
                Ok(ops.len() - 1)
            },
        }
    }
}

/// Promotion: an integer vector with a float vector (either side) gives a float
/// vector; a boolean vector with anything fails with an invalid-types error.
pub proof fn lemma_promotion(op: ArithOp, l: Var, r: Var)
    ensures
        (l is IntV && r is FloatV) || (l is FloatV && r is IntV) ==> combine_shape(op, l.shape(), r.shape()) matches Ok(Shape::Float(_)),
        l is BoolV || r is BoolV ==> combine_shape(op, l.shape(), r.shape()) == Err::<Shape, Failure>(Failure::InvalidTypes),
{
}

/// Zip truncation: whenever a binary operator succeeds, its result is as long as the shorter operand.
pub proof fn lemma_zip_truncation(op: ArithOp, l: Var, r: Var)
    requires
        combine_shape(op, l.shape(), r.shape()) is Ok,
    ensures
        match combine_shape(op, l.shape(), r.shape()) {
            Ok(Shape::Int(v)) => v.len() == min_len(shape_len(l.shape()), shape_len(r.shape())),
            Ok(Shape::Float(n)) => n == min_len(shape_len(l.shape()), shape_len(r.shape())),
            _ => false,
        },
{
}

pub open spec fn shape_len(s: Shape) -> nat {
    match s {
        Shape::Int(v) => v.len(),
        Shape::Float(n) => n,
        Shape::Bool(v) => v.len(),
    }
}

/// Fan-out: once a graph is computed, any two subscriptions to the same node —
/// however many were made, all before computing — hold equal copies of that node's value.
pub proof fn lemma_fan_out(g: ExecutionGraph, a: Receiver, b: Receiver)
    requires
        g.wf(),
        g.delivered(),
        a.id() < g.mailbox_count(),
        b.id() < g.mailbox_count(),
        g.source(a.id() as int) == g.source(b.id() as int),
    ensures
        g.mailbox(a.id() as int) is Some,
        g.mailbox(b.id() as int) is Some,
        g.mailbox(a.id() as int).unwrap().same_as(&g.mailbox(b.id() as int).unwrap()),
        g.outcome(g.source(a.id() as int) as int) == Ok::<Shape, Failure>(g.mailbox(a.id() as int).unwrap().shape()),
{
    let ma = a.id() as int;
    let mb = b.id() as int;
    assert(g.sources@[ma] == g.sources@[mb]);
    match g.mailboxes@[ma] {
        Some(_) => {},
        None => {},
    }
    match g.mailboxes@[mb] {
        Some(_) => {},
        None => {},
    }
}

/// The two schedulers agree: computing the same graph sequentially and in waves
/// leaves values of the same shape in every mailbox (the same integers and booleans,
/// the same number of floats).
pub proof fn lemma_schedules_agree(g0: ExecutionGraph, seq_done: ExecutionGraph, par_done: ExecutionGraph, m: int)
    requires
        g0.wf(),
        0 <= m < g0.mailbox_count(),
        seq_done.delivered(),
        par_done.delivered(),
        seq_done.mailbox_count() == g0.mailbox_count(),
        par_done.mailbox_count() == g0.mailbox_count(),
        forall|i: int| 0 <= i < g0.node_count() ==> #[trigger] seq_done.outcome(i) == g0.outcome(i),
        forall|i: int| 0 <= i < g0.node_count() ==> #[trigger] par_done.outcome(i) == g0.outcome(i),
        forall|k: int| 0 <= k < g0.mailbox_count() ==> #[trigger] seq_done.source(k) == g0.source(k),
        forall|k: int| 0 <= k < g0.mailbox_count() ==> #[trigger] par_done.source(k) == g0.source(k),
    ensures
        seq_done.mailbox(m) is Some,
        par_done.mailbox(m) is Some,
        seq_done.mailbox(m).unwrap().shape() == par_done.mailbox(m).unwrap().shape(),
{
    assert(seq_done.source(m) == g0.source(m));
    assert(par_done.source(m) == g0.source(m));
    assert(g0.source(m) < g0.node_count());
    assert(seq_done.outcome(g0.source(m) as int) == g0.outcome(g0.source(m) as int));
    assert(par_done.outcome(g0.source(m) as int) == g0.outcome(g0.source(m) as int));
    match seq_done.mailboxes@[m] {
        Some(_) => {},
        None => {},
    }
    match par_done.mailboxes@[m] {
        Some(_) => {},
        None => {},
    }
}

} // verus!
