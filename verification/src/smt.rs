//! IR → SMT-LIB2, the private compile target.
use vstd::prelude::*;
use crate::ir::{Term, Formula, QVar};
use crate::text::{join, lemma_join_push, int_text, nat_text, push_int, push_nat};

verus! {

/// SMT-LIB2 text of a term.
pub open spec fn term_sexp(t: Term) -> Seq<char>
    decreases t,
{
    match t {
        Term::Var { name } => name@,
        Term::Int { v } => if v < 0 {
            "(- "@ + nat_text((-v) as nat) + ")"@
        } else {
            nat_text(v as nat)
        },
        Term::Real { v } => v@,
        Term::App { name, args } => if args@.len() == 0 {
            name@
        } else {
            "("@ + name@ + " "@ + join(terms_sexp(args@), " "@) + ")"@
        },
        Term::Arith { op, args } => "("@ + op@ + " "@ + join(terms_sexp(args@), " "@) + ")"@,
    }
}

/// SMT-LIB2 text of each term of a list.
pub open spec fn terms_sexp(s: Seq<Term>) -> Seq<Seq<char>>
    decreases s,
{
    if s.len() == 0 {
        Seq::empty()
    } else {
        terms_sexp(s.subrange(0, s.len() - 1)).push(term_sexp(s[s.len() - 1]))
    }
}

/// The sort bindings of a quantifier: `(x Thing)` for each variable.
pub open spec fn qvars_sexp(vars: Seq<QVar>) -> Seq<Seq<char>> {
    Seq::new(vars.len(), |i: int| "("@ + vars[i].name@ + " "@ + vars[i].sort@ + ")"@)
}

/// SMT-LIB2 text of a formula.
pub open spec fn form_sexp(f: Formula) -> Seq<char>
    decreases f,
{
    match f {
        Formula::Pred { name, args } => if args@.len() == 0 {
            name@
        } else {
            "("@ + name@ + " "@ + join(terms_sexp(args@), " "@) + ")"@
        },
        Formula::Eq { a, b } => "(= "@ + term_sexp(a) + " "@ + term_sexp(b) + ")"@,
        Formula::Cmp { rel, a, b } => "("@ + rel@ + " "@ + term_sexp(a) + " "@ + term_sexp(b) + ")"@,
        Formula::Not { x } => "(not "@ + form_sexp(*x) + ")"@,
        Formula::And { xs } => "(and "@ + join(forms_sexp(xs@), " "@) + ")"@,
        Formula::Or { xs } => "(or "@ + join(forms_sexp(xs@), " "@) + ")"@,
        Formula::Imp { a, b } => "(=> "@ + form_sexp(*a) + " "@ + form_sexp(*b) + ")"@,
        Formula::Iff { a, b } => "(= "@ + form_sexp(*a) + " "@ + form_sexp(*b) + ")"@,
        Formula::Forall { vars, body } => "(forall ("@ + join(qvars_sexp(vars@), " "@) + ") "@
            + form_sexp(*body) + ")"@,
        Formula::Exists { vars, body } => "(exists ("@ + join(qvars_sexp(vars@), " "@) + ") "@
            + form_sexp(*body) + ")"@,
    }
}

/// SMT-LIB2 text of each formula of a list.
pub open spec fn forms_sexp(s: Seq<Formula>) -> Seq<Seq<char>>
    decreases s,
{
    if s.len() == 0 {
        Seq::empty()
    } else {
        forms_sexp(s.subrange(0, s.len() - 1)).push(form_sexp(s[s.len() - 1]))
    }
}

proof fn lemma_terms_smt_step(s: Seq<Term>, i: int)
    requires
        0 <= i < s.len(),
    ensures
        terms_sexp(s.take(i + 1)) == terms_sexp(s.take(i)).push(term_sexp(s[i])),
{
    assert(s.take(i + 1).subrange(0, i) =~= s.take(i));
}

proof fn lemma_forms_smt_step(s: Seq<Formula>, i: int)
    requires
        0 <= i < s.len(),
    ensures
        forms_sexp(s.take(i + 1)) == forms_sexp(s.take(i)).push(form_sexp(s[i])),
{
    assert(s.take(i + 1).subrange(0, i) =~= s.take(i));
}

fn push_terms_smt(out: &mut String, args: &Vec<Term>)
    ensures
        final(out)@ == old(out)@ + join(terms_sexp(args@), " "@),
    decreases args,
{
    let ghost start = out@;
    let n = args.len();
    let mut i: usize = 0;
    while i < n
        invariant
            n == args.len(),
            i <= n,
            out@ == start + join(terms_sexp(args@.take(i as int)), " "@),
        decreases n - i,
    {
        proof {
            lemma_terms_smt_step(args@, i as int);
            lemma_join_push(terms_sexp(args@.take(i as int)), " "@, term_sexp(args@[i as int]));
            assert(terms_sexp(args@.take(i as int)).len() == i) by {
                lemma_terms_smt_len(args@.take(i as int));
            }
        }
        if i > 0 {
            out.append(" ");
        }
        push_term_smt(out, &args[i]);
        i = i + 1;
    }
    assert(args@.take(n as int) =~= args@);
}

proof fn lemma_terms_smt_len(s: Seq<Term>)
    ensures
        terms_sexp(s).len() == s.len(),
    decreases s.len(),
{
    if s.len() > 0 {
        lemma_terms_smt_len(s.subrange(0, s.len() - 1));
    }
}

proof fn lemma_forms_smt_len(s: Seq<Formula>)
    ensures
        forms_sexp(s).len() == s.len(),
    decreases s.len(),
{
    if s.len() > 0 {
        lemma_forms_smt_len(s.subrange(0, s.len() - 1));
    }
}

/// Appends the SMT-LIB2 text of `t`.
pub fn push_term_smt(out: &mut String, t: &Term)
    ensures
        final(out)@ == old(out)@ + term_sexp(*t),
    decreases t,
{
    match t {
        Term::Var { name } => {
            out.append(name.as_str());
        },
        Term::Int { v } => {
            if *v < 0 {
                out.append("(- ");
                let m: u64 = if *v == i64::MIN {
                    9223372036854775808u64
                } else {
                    (-*v) as u64
                };
                push_nat(out, m);
                out.append(")");
            } else {
                push_nat(out, *v as u64);
            }
        },
        Term::Real { v } => {
            out.append(v.as_str());
        },
        Term::App { name, args } => {
            if args.len() == 0 {
                out.append(name.as_str());
            } else {
                out.append("(");
                out.append(name.as_str());
                out.append(" ");
                push_terms_smt(out, args);
                out.append(")");
            }
        },
        Term::Arith { op, args } => {
            out.append("(");
            out.append(op.as_str());
            out.append(" ");
            push_terms_smt(out, args);
            out.append(")");
        },
    }
}

fn push_qvars_smt(out: &mut String, vars: &Vec<QVar>)
    ensures
        final(out)@ == old(out)@ + join(qvars_sexp(vars@), " "@),
{
    let ghost start = out@;
    let n = vars.len();
    let mut i: usize = 0;
    while i < n
        invariant
            n == vars.len(),
            i <= n,
            out@ == start + join(qvars_sexp(vars@).take(i as int), " "@),
        decreases n - i,
    {
        proof {
            lemma_join_push(qvars_sexp(vars@).take(i as int), " "@, qvars_sexp(vars@)[i as int]);
            assert(qvars_sexp(vars@).take(i as int).push(qvars_sexp(vars@)[i as int])
                =~= qvars_sexp(vars@).take(i + 1));
        }
        if i > 0 {
            out.append(" ");
        }
        out.append("(");
        out.append(vars[i].name.as_str());
        out.append(" ");
        out.append(vars[i].sort.as_str());
        out.append(")");
        i = i + 1;
    }
    assert(qvars_sexp(vars@).take(n as int) =~= qvars_sexp(vars@));
}

fn push_forms_smt(out: &mut String, xs: &Vec<Formula>)
    ensures
        final(out)@ == old(out)@ + join(forms_sexp(xs@), " "@),
    decreases xs,
{
    let ghost start = out@;
    let n = xs.len();
    let mut i: usize = 0;
    while i < n
        invariant
            n == xs.len(),
            i <= n,
            out@ == start + join(forms_sexp(xs@.take(i as int)), " "@),
        decreases n - i,
    {
        proof {
            lemma_forms_smt_step(xs@, i as int);
            lemma_join_push(forms_sexp(xs@.take(i as int)), " "@, form_sexp(xs@[i as int]));
            lemma_forms_smt_len(xs@.take(i as int));
        }
        if i > 0 {
            out.append(" ");
        }
        push_form_smt(out, &xs[i]);
        i = i + 1;
    }
    assert(xs@.take(n as int) =~= xs@);
}

/// Appends the SMT-LIB2 text of `f`.
pub fn push_form_smt(out: &mut String, f: &Formula)
    ensures
        final(out)@ == old(out)@ + form_sexp(*f),
    decreases f,
{
    match f {
        Formula::Pred { name, args } => {
            if args.len() == 0 {
                out.append(name.as_str());
            } else {
                out.append("(");
                out.append(name.as_str());
                out.append(" ");
                push_terms_smt(out, args);
                out.append(")");
            }
        },
        Formula::Eq { a, b } => {
            out.append("(= ");
            push_term_smt(out, a);
            out.append(" ");
            push_term_smt(out, b);
            out.append(")");
        },
        Formula::Cmp { rel, a, b } => {
            out.append("(");
            out.append(rel.as_str());
            out.append(" ");
            push_term_smt(out, a);
            out.append(" ");
            push_term_smt(out, b);
            out.append(")");
        },
        Formula::Not { x } => {
            out.append("(not ");
            push_form_smt(out, x);
            out.append(")");
        },
        Formula::And { xs } => {
            out.append("(and ");
            push_forms_smt(out, xs);
            out.append(")");
        },
        Formula::Or { xs } => {
            out.append("(or ");
            push_forms_smt(out, xs);
            out.append(")");
        },
        Formula::Imp { a, b } => {
            out.append("(=> ");
            push_form_smt(out, a);
            out.append(" ");
            push_form_smt(out, b);
            out.append(")");
        },
        Formula::Iff { a, b } => {
            out.append("(= ");
            push_form_smt(out, a);
            out.append(" ");
            push_form_smt(out, b);
            out.append(")");
        },
        Formula::Forall { vars, body } => {
            out.append("(forall (");
            push_qvars_smt(out, vars);
            out.append(") ");
            push_form_smt(out, body);
            out.append(")");
        },
        Formula::Exists { vars, body } => {
            out.append("(exists (");
            push_qvars_smt(out, vars);
            out.append(") ");
            push_form_smt(out, body);
            out.append(")");
        },
    }
}

/// The SMT-LIB2 text of a term.
pub fn term_smt(t: &Term) -> (r: String)
    ensures
        r@ == term_sexp(*t),
{
    let mut s = String::new();
    push_term_smt(&mut s, t);
    s
}

/// The SMT-LIB2 text of a formula.
pub fn form_smt(f: &Formula) -> (r: String)
    ensures
        r@ == form_sexp(*f),
{
    let mut s = String::new();
    push_form_smt(&mut s, f);
    s
}

} // verus!
