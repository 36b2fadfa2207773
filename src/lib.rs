//! Evaluation of a small vectorised expression language: text is lexed into
//! tokens, parsed into expression trees, compiled into graphs of operator nodes
//! wired by mailboxes, and computed.
use vstd::prelude::*;

pub mod lexer;
pub mod parser;
pub mod execution;

use crate::execution::{
    denote, lemma_tree_model, tree_buildable, tree_nodes, tree_value, ExecutionGraph, Failure,
    FloatKernel, Shape, Var,
};
use crate::lexer::{lex_multiline, spec_lex_multiline, tokens_view, SToken};
use crate::parser::{parse, spec_parse};

verus! {

/// A source of program text.
pub trait Evaluatable {
    fn to_owned_string(self) -> Result<String, ()>;
}

impl Evaluatable for String {
    fn to_owned_string(self) -> (r: Result<String, ()>)
        ensures
            r matches Ok(s) && s@ == self@,
    {
        Ok(self)
    }
}

/// Line `toks` is one expression that compiles (and is not too large to number)
/// and computes without failure.
pub open spec fn line_ok(toks: Seq<SToken>) -> bool {
    match spec_parse(toks) {
        Some(t) => tree_buildable(t) && 3 * tree_nodes(t) < usize::MAX && tree_value(t) is Ok,
        None => false,
    }
}

/// Every line of a program lexes and is `line_ok`.
pub open spec fn program_ok(s: Seq<char>) -> bool {
    match spec_lex_multiline(s) {
        Ok(tss) => forall|i: int| 0 <= i < tss.len() ==> line_ok(#[trigger] tss[i]),
        Err(_) => false,
    }
}

proof fn lemma_line_fails(s: Seq<char>, tss: Seq<Seq<SToken>>, i: int)
    requires
        spec_lex_multiline(s) == Ok::<Seq<Seq<SToken>>, Seq<char>>(tss),
        0 <= i < tss.len(),
        !line_ok(tss[i]),
    ensures
        !program_ok(s),
{
    if program_ok(s) {
        let t2 = match spec_lex_multiline(s) {
            Ok(t) => t,
            Err(_) => tss,
        };
        assert(t2 == tss);
        assert(forall|k: int| 0 <= k < t2.len() ==> line_ok(#[trigger] t2[k]));
        assert(line_ok(t2[i]));
    }
}

/// Line `toks` parses into a tree whose value has the shape of `v`.
pub open spec fn line_value(toks: Seq<SToken>, v: Var) -> bool {
    &&& spec_parse(toks) is Some
    &&& tree_value(spec_parse(toks).unwrap()) == Ok::<Shape, Failure>(v.shape())
}

/// Evaluates a program of one expression per line, each line in parallel where it
/// can be, and returns one value per line. Fails if any line fails to lex (with the
/// failing lines' texts), to parse, to compile, or to compute.
pub fn evaluate<K: FloatKernel>(program: &str) -> (r: Result<Vec<Var>, String>)
    ensures
        r is Ok <==> program_ok(program@),
        match spec_lex_multiline(program@) {
            Err(msg) => r matches Err(e) && e@ == msg,
            Ok(_) => true,
        },
        match r {
            Ok(vs) => spec_lex_multiline(program@) matches Ok(tss) && vs@.len() == tss.len()
                && forall|i: int| 0 <= i < vs@.len() ==> line_value(#[trigger] tss[i], vs@[i]),
            Err(_) => true,
        },
{
    let lines = match lex_multiline(program) {
        Ok(lines) => lines,
        Err(e) => {
            return Err(e.substr);
        },
    };
    let ghost tss = lines@.map_values(|ts: Vec<crate::lexer::Token>| tokens_view(ts@));
    let mut results: Vec<Var> = Vec::new();
    let mut i: usize = 0;
    while i < lines.len()
        invariant
            spec_lex_multiline(program@) == Ok::<Seq<Seq<SToken>>, Seq<char>>(tss),
            tss == lines@.map_values(|ts: Vec<crate::lexer::Token>| tokens_view(ts@)),
            i <= lines@.len(),
            results@.len() == i,
            forall|q: int| 0 <= q < i ==> line_value(#[trigger] tss[q], results@[q]) && line_ok(tss[q]),
        decreases lines@.len() - i,
    {
        let toks = lines[i].as_slice();
        assert(i < tss.len());
        assert(tss[i as int] == tokens_view(toks@));
        let node = match parse(toks) {
            Ok(n) => n,
            Err(_) => {
                assert(!line_ok(tss[i as int]));
                proof {
                    lemma_line_fails(program@, tss, i as int);
                }
                return Err(String::from_str("Failed to parse"));
            },
        };
        proof {
            lemma_tree_model(&node);
        }
        let mut g = match ExecutionGraph::build_execution_graph(&node) {
            Ok(g) => g,
            Err(_) => {
                assert(!line_ok(tss[i as int]));
                proof {
                    lemma_line_fails(program@, tss, i as int);
                }
                return Err(String::from_str("Failed to build"));
            },
        };
        let ghost g0 = g;
        let handle = match g.subscribe() {
            Some(h) => h,
            None => {
                return Err(String::from_str("Failed to subscribe"));
            },
        };
        let ghost g1 = g;
        match g.initialize_par_iter::<K>() {
            Ok(()) => {},
            Err(e) => {
                assert(!line_ok(tss[i as int]));
                proof {
                    lemma_line_fails(program@, tss, i as int);
                }
                return Err(e);
            },
        }
        proof {
            assert(g.outcome(g0.root() as int) == g0.outcome(g0.root() as int));
            assert(g.source(handle.id() as int) == g0.root());
            crate::execution::lemma_fan_out(g, handle, handle);
        }
        let v = match g.recv(&handle) {
            Some(v) => v,
            None => {
                return Err(String::from_str("Failed to receive"));
            },
        };
        assert(line_value(tss[i as int], v) && line_ok(tss[i as int])) by {
            assert(node.view() == spec_parse(tss[i as int]).unwrap());
            assert(denote(&node) == Ok::<Shape, Failure>(v.shape()));
        }
        results.push(v);
        i = i + 1;
    }
    assert(program_ok(program@)) by {
        assert forall|q: int| 0 <= q < tss.len() implies line_ok(#[trigger] tss[q]) by {
            assert(line_value(tss[q], results@[q]));
        }
    }
    Ok(results)
}

} // verus!
