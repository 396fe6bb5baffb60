//! The typed many-sorted first-order IR that claims are written in.
use vstd::prelude::*;

verus! {

/// A predicate or function signature: argument sorts and, for
/// functions, the result sort (predicates are Boolean).
pub struct Sig {
    pub name: String,
    pub args: Vec<String>,
    pub ret: Option<String>,
    pub gloss: String,
}

/// A term: a variable, an integer or real literal, an application of a
/// function symbol (a constant when it has no arguments), or an
/// arithmetic combination.
pub enum Term {
    Var { name: String },
    Int { v: i64 },
    Real { v: String },
    App { name: String, args: Vec<Term> },
    Arith { op: String, args: Vec<Term> },
}

/// A quantified variable with its sort.
pub struct QVar {
    pub name: String,
    pub sort: String,
}

/// A formula of the IR.
pub enum Formula {
    Pred { name: String, args: Vec<Term> },
    Eq { a: Term, b: Term },
    Cmp { rel: String, a: Term, b: Term },
    Not { x: Box<Formula> },
    And { xs: Vec<Formula> },
    Or { xs: Vec<Formula> },
    Imp { a: Box<Formula>, b: Box<Formula> },
    Iff { a: Box<Formula>, b: Box<Formula> },
    Forall { vars: Vec<QVar>, body: Box<Formula> },
    Exists { vars: Vec<QVar>, body: Box<Formula> },
}

/// One claim of the trajectory: its id, the sentence it came from, a
/// short gloss, the formula, the back-translation, its entrenchment
/// weight, whether it is active, and whether it is a default.
pub struct Claim {
    pub id: String,
    pub source: String,
    pub gloss: String,
    pub formula: Formula,
    pub back: String,
    pub weight: i64,
    pub active: bool,
    pub defeasible: bool,
}

/// A pasted batch of vocabulary and claims.
pub struct Ingest {
    pub sorts: Vec<String>,
    pub preds: Vec<Sig>,
    pub funcs: Vec<Sig>,
    pub claims: Vec<Claim>,
}

} // verus!
