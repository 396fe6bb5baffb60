//! IR → plain English, the only logical form a person is shown.
use vstd::prelude::*;
use crate::ir::{Term, Formula, QVar};
use crate::text::{join, lemma_join_push, int_text, nat_text, digit, push_int, str_eq};

verus! {

/// English reading of a term.
pub open spec fn term_english(t: Term) -> Seq<char>
    decreases t,
{
    match t {
        Term::Var { name } => name@,
        Term::Int { v } => int_text(v as int),
        Term::Real { v } => v@,
        Term::App { name, args } => if args@.len() == 0 {
            name@
        } else {
            name@ + "("@ + join(terms_english(args@), ", "@) + ")"@
        },
        Term::Arith { op, args } => join(terms_english(args@), " "@ + op@ + " "@),
    }
}

/// English reading of each term of a list.
pub open spec fn terms_english(s: Seq<Term>) -> Seq<Seq<char>>
    decreases s,
{
    if s.len() == 0 {
        Seq::empty()
    } else {
        terms_english(s.subrange(0, s.len() - 1)).push(term_english(s[s.len() - 1]))
    }
}

/// The words for a comparison: `<` is "is less than", `<=` "is at
/// most", `>` "is greater than", `>=` "is at least"; any other relation
/// is shown as written.
pub open spec fn relation_words(rel: Seq<char>) -> Seq<char> {
    if rel == "<"@ {
        "is less than"@
    } else if rel == "<="@ {
        "is at most"@
    } else if rel == ">"@ {
        "is greater than"@
    } else if rel == ">="@ {
        "is at least"@
    } else {
        rel
    }
}

/// `x in Thing` for each quantified variable.
pub open spec fn qvars_english(vars: Seq<QVar>) -> Seq<Seq<char>> {
    Seq::new(vars.len(), |i: int| vars[i].name@ + " in "@ + vars[i].sort@)
}

/// English reading of a formula.
pub open spec fn form_english(f: Formula) -> Seq<char>
    decreases f,
{
    match f {
        Formula::Pred { name, args } => if args@.len() == 0 {
            name@
        } else {
            name@ + "("@ + join(terms_english(args@), ", "@) + ")"@
        },
        Formula::Eq { a, b } => term_english(a) + " is "@ + term_english(b),
        Formula::Cmp { rel, a, b } => term_english(a) + " "@ + relation_words(rel@) + " "@
            + term_english(b),
        Formula::Not { x } => "it is not the case that ("@ + form_english(*x) + ")"@,
        Formula::And { xs } => join(forms_english(xs@), ", and "@),
        Formula::Or { xs } => join(forms_english(xs@), ", or "@),
        Formula::Imp { a, b } => "if "@ + form_english(*a) + " then "@ + form_english(*b),
        Formula::Iff { a, b } => form_english(*a) + " exactly when "@ + form_english(*b),
        Formula::Forall { vars, body } => "for every "@ + join(qvars_english(vars@), " and "@)
            + ", "@ + form_english(*body),
        Formula::Exists { vars, body } => "there is some "@ + join(qvars_english(vars@), " and "@)
            + " such that "@ + form_english(*body),
    }
}

/// English reading of each formula of a list.
pub open spec fn forms_english(s: Seq<Formula>) -> Seq<Seq<char>>
    decreases s,
{
    if s.len() == 0 {
        Seq::empty()
    } else {
        forms_english(s.subrange(0, s.len() - 1)).push(form_english(s[s.len() - 1]))
    }
}

proof fn lemma_terms_english_step(s: Seq<Term>, i: int)
    requires
        0 <= i < s.len(),
    ensures
        terms_english(s.take(i + 1)) == terms_english(s.take(i)).push(term_english(s[i])),
        terms_english(s.take(i)).len() == i,
{
    assert(s.take(i + 1).subrange(0, i) =~= s.take(i));
    lemma_terms_english_len(s.take(i));
}

proof fn lemma_terms_english_len(s: Seq<Term>)
    ensures
        terms_english(s).len() == s.len(),
    decreases s.len(),
{
    if s.len() > 0 {
        lemma_terms_english_len(s.subrange(0, s.len() - 1));
    }
}

proof fn lemma_forms_english_step(s: Seq<Formula>, i: int)
    requires
        0 <= i < s.len(),
    ensures
        forms_english(s.take(i + 1)) == forms_english(s.take(i)).push(form_english(s[i])),
        forms_english(s.take(i)).len() == i,
{
    assert(s.take(i + 1).subrange(0, i) =~= s.take(i));
    lemma_forms_english_len(s.take(i));
}

proof fn lemma_forms_english_len(s: Seq<Formula>)
    ensures
        forms_english(s).len() == s.len(),
    decreases s.len(),
{
    if s.len() > 0 {
        lemma_forms_english_len(s.subrange(0, s.len() - 1));
    }
}

/// Appends the English of each term, `sep` between neighbours.
fn push_terms_english(out: &mut String, args: &Vec<Term>, sep: &str)
    ensures
        final(out)@ == old(out)@ + join(terms_english(args@), sep@),
    decreases args,
{
    let ghost start = out@;
    let n = args.len();
    let mut i: usize = 0;
    while i < n
        invariant
            n == args.len(),
            i <= n,
            out@ == start + join(terms_english(args@.take(i as int)), sep@),
        decreases n - i,
    {
        proof {
            lemma_terms_english_step(args@, i as int);
            lemma_join_push(terms_english(args@.take(i as int)), sep@, term_english(args@[i as int]));
        }
        if i > 0 {
            out.append(sep);
        }
        push_term_english(out, &args[i]);
        i = i + 1;
    }
    assert(args@.take(n as int) =~= args@);
}

/// Appends the English reading of `t`.
pub fn push_term_english(out: &mut String, t: &Term)
    ensures
        final(out)@ == old(out)@ + term_english(*t),
    decreases t,
{
    match t {
        Term::Var { name } => {
            out.append(name.as_str());
        },
        Term::Int { v } => {
            push_int(out, *v);
        },
        Term::Real { v } => {
            out.append(v.as_str());
        },
        Term::App { name, args } => {
            if args.len() == 0 {
                out.append(name.as_str());
            } else {
                out.append(name.as_str());
                out.append("(");
                push_terms_english(out, args, ", ");
                out.append(")");
            }
        },
        Term::Arith { op, args } => {
            let mut sep = String::new();
            sep.append(" ");
            sep.append(op.as_str());
            sep.append(" ");
            push_terms_english(out, args, sep.as_str());
        },
    }
}

fn relation_words_text(rel: &str) -> (r: Option<&'static str>)
    ensures
        match r {
            Some(w) => w@ == relation_words(rel@),
            None => relation_words(rel@) == rel@,
        },
{
    if str_eq(rel, "<") {
        Some("is less than")
    } else if str_eq(rel, "<=") {
        Some("is at most")
    } else if str_eq(rel, ">") {
        Some("is greater than")
    } else if str_eq(rel, ">=") {
        Some("is at least")
    } else {
        None
    }
}

fn push_qvars_english(out: &mut String, vars: &Vec<QVar>)
    ensures
        final(out)@ == old(out)@ + join(qvars_english(vars@), " and "@),
{
    let ghost start = out@;
    let n = vars.len();
    let mut i: usize = 0;
    while i < n
        invariant
            n == vars.len(),
            i <= n,
            out@ == start + join(qvars_english(vars@).take(i as int), " and "@),
        decreases n - i,
    {
        proof {
            lemma_join_push(qvars_english(vars@).take(i as int), " and "@, qvars_english(vars@)[i as int]);
            assert(qvars_english(vars@).take(i as int).push(qvars_english(vars@)[i as int])
                =~= qvars_english(vars@).take(i + 1));
        }
        if i > 0 {
            out.append(" and ");
        }
        out.append(vars[i].name.as_str());
        out.append(" in ");
        out.append(vars[i].sort.as_str());
        i = i + 1;
    }
    assert(qvars_english(vars@).take(n as int) =~= qvars_english(vars@));
}

fn push_forms_english(out: &mut String, xs: &Vec<Formula>, sep: &str)
    ensures
        final(out)@ == old(out)@ + join(forms_english(xs@), sep@),
    decreases xs,
{
    let ghost start = out@;
    let n = xs.len();
    let mut i: usize = 0;
    while i < n
        invariant
            n == xs.len(),
            i <= n,
            out@ == start + join(forms_english(xs@.take(i as int)), sep@),
        decreases n - i,
    {
        proof {
            lemma_forms_english_step(xs@, i as int);
            lemma_join_push(forms_english(xs@.take(i as int)), sep@, form_english(xs@[i as int]));
        }
        if i > 0 {
            out.append(sep);
        }
        push_form_english(out, &xs[i]);
        i = i + 1;
    }
    assert(xs@.take(n as int) =~= xs@);
}

/// Appends the English reading of `f`.
pub fn push_form_english(out: &mut String, f: &Formula)
    ensures
        final(out)@ == old(out)@ + form_english(*f),
    decreases f,
{
    match f {
        Formula::Pred { name, args } => {
            if args.len() == 0 {
                out.append(name.as_str());
            } else {
                out.append(name.as_str());
                out.append("(");
                push_terms_english(out, args, ", ");
                out.append(")");
            }
        },
        Formula::Eq { a, b } => {
            push_term_english(out, a);
            out.append(" is ");
            push_term_english(out, b);
        },
        Formula::Cmp { rel, a, b } => {
            push_term_english(out, a);
            out.append(" ");
            match relation_words_text(rel.as_str()) {
                Some(words) => out.append(words),
                None => out.append(rel.as_str()),
            }
            out.append(" ");
            push_term_english(out, b);
        },
        Formula::Not { x } => {
            out.append("it is not the case that (");
            push_form_english(out, x);
            out.append(")");
        },
        Formula::And { xs } => {
            push_forms_english(out, xs, ", and ");
        },
        Formula::Or { xs } => {
            push_forms_english(out, xs, ", or ");
        },
        Formula::Imp { a, b } => {
            out.append("if ");
            push_form_english(out, a);
            out.append(" then ");
            push_form_english(out, b);
        },
        Formula::Iff { a, b } => {
            push_form_english(out, a);
            out.append(" exactly when ");
            push_form_english(out, b);
        },
        Formula::Forall { vars, body } => {
            out.append("for every ");
            push_qvars_english(out, vars);
            out.append(", ");
            push_form_english(out, body);
        },
        Formula::Exists { vars, body } => {
            out.append("there is some ");
            push_qvars_english(out, vars);
            out.append(" such that ");
            push_form_english(out, body);
        },
    }
}

/// The English reading of a term.
pub fn term_en(t: &Term) -> (r: String)
    ensures
        r@ == term_english(*t),
{
    let mut s = String::new();
    push_term_english(&mut s, t);
    s
}

/// The English reading of a formula.
pub fn form_en(f: &Formula) -> (r: String)
    ensures
        r@ == form_english(*f),
{
    let mut s = String::new();
    push_form_english(&mut s, f);
    s
}

/// No character of `s` is `=`.
pub open spec fn free_of_eq(s: Seq<char>) -> bool {
    forall|i: int| 0 <= i < s.len() ==> s[i] != '='
}

/// A relation that is shown in words, or as written with no `=` in it.
pub open spec fn rel_plain(rel: Seq<char>) -> bool {
    rel == "<"@ || rel == "<="@ || rel == ">"@ || rel == ">="@ || free_of_eq(rel)
}

/// No name, operator or literal in the term has a `=`.
pub open spec fn term_plain(t: Term) -> bool
    decreases t,
{
    match t {
        Term::Var { name } => free_of_eq(name@),
        Term::Int { v } => true,
        Term::Real { v } => free_of_eq(v@),
        Term::App { name, args } => free_of_eq(name@) && terms_plain(args@),
        Term::Arith { op, args } => free_of_eq(op@) && terms_plain(args@),
    }
}

/// No term of the list has a `=` in a name, operator or literal.
pub open spec fn terms_plain(s: Seq<Term>) -> bool
    decreases s,
{
    if s.len() == 0 {
        true
    } else {
        terms_plain(s.subrange(0, s.len() - 1)) && term_plain(s[s.len() - 1])
    }
}

/// Neither the variable nor its sort has a `=`.
pub open spec fn qvar_plain(q: QVar) -> bool {
    free_of_eq(q.name@) && free_of_eq(q.sort@)
}

/// No quantified variable or sort has a `=`.
pub open spec fn qvars_plain(vars: Seq<QVar>) -> bool {
    forall|i: int| 0 <= i < vars.len() ==> #[trigger] qvar_plain(vars[i])
}

/// No name, sort, operator, literal or relation shown as written in the
/// formula has a `=`.
pub open spec fn form_plain(f: Formula) -> bool
    decreases f,
{
    match f {
        Formula::Pred { name, args } => free_of_eq(name@) && terms_plain(args@),
        Formula::Eq { a, b } => term_plain(a) && term_plain(b),
        Formula::Cmp { rel, a, b } => rel_plain(rel@) && term_plain(a) && term_plain(b),
        Formula::Not { x } => form_plain(*x),
        Formula::And { xs } => forms_plain(xs@),
        Formula::Or { xs } => forms_plain(xs@),
        Formula::Imp { a, b } => form_plain(*a) && form_plain(*b),
        Formula::Iff { a, b } => form_plain(*a) && form_plain(*b),
        Formula::Forall { vars, body } => qvars_plain(vars@) && form_plain(*body),
        Formula::Exists { vars, body } => qvars_plain(vars@) && form_plain(*body),
    }
}

/// Every formula of the list is plain.
pub open spec fn forms_plain(s: Seq<Formula>) -> bool
    decreases s,
{
    if s.len() == 0 {
        true
    } else {
        forms_plain(s.subrange(0, s.len() - 1)) && form_plain(s[s.len() - 1])
    }
}

proof fn lemma_free_concat(a: Seq<char>, b: Seq<char>)
    ensures
        free_of_eq(a + b) == (free_of_eq(a) && free_of_eq(b)),
{
    if free_of_eq(a) && free_of_eq(b) {
        assert forall|i: int| 0 <= i < (a + b).len() implies (a + b)[i] != '=' by {
            if i < a.len() {
                assert((a + b)[i] == a[i]);
            } else {
                assert((a + b)[i] == b[i - a.len()]);
            }
        }
    }
    if free_of_eq(a + b) {
        assert forall|i: int| 0 <= i < a.len() implies a[i] != '=' by {
            assert((a + b)[i] == a[i]);
        }
        assert forall|i: int| 0 <= i < b.len() implies b[i] != '=' by {
            assert((a + b)[a.len() + i] == b[i]);
        }
    }
}

proof fn lemma_free_join(parts: Seq<Seq<char>>, sep: Seq<char>)
    requires
        free_of_eq(sep),
        forall|k: int| 0 <= k < parts.len() ==> free_of_eq(#[trigger] parts[k]),
    ensures
        free_of_eq(join(parts, sep)),
    decreases parts.len(),
{
    if parts.len() > 1 {
        let d = parts.drop_last();
        assert forall|k: int| 0 <= k < d.len() implies free_of_eq(#[trigger] d[k]) by {
            assert(d[k] == parts[k]);
        }
        lemma_free_join(d, sep);
        lemma_free_concat(join(d, sep), sep);
        lemma_free_concat(join(d, sep) + sep, parts.last());
    } else if parts.len() == 1 {
        assert(free_of_eq(parts[0]));
    }
}

proof fn lemma_free_nat(n: nat)
    ensures
        free_of_eq(nat_text(n)),
    decreases n,
{
    if n >= 10 {
        lemma_free_nat(n / 10);
        lemma_free_concat(nat_text(n / 10), seq![digit((n % 10) as int)]);
        assert(nat_text(n / 10).push(digit((n % 10) as int)) =~= nat_text(n / 10) + seq![digit((n % 10) as int)]);
    }
}

proof fn lemma_free_int(v: int)
    ensures
        free_of_eq(int_text(v)),
{
    if v < 0 {
        lemma_free_nat((-v) as nat);
        lemma_free_concat(seq!['-'], nat_text((-v) as nat));
    } else {
        lemma_free_nat(v as nat);
    }
}

/// The fixed words of the English reading have no `=`.
proof fn lemma_words_free()
    ensures
        free_of_eq("("@),
        free_of_eq(")"@),
        free_of_eq(", "@),
        free_of_eq(" "@),
        free_of_eq(" is "@),
        free_of_eq(" in "@),
        free_of_eq(" and "@),
        free_of_eq(", and "@),
        free_of_eq(", or "@),
        free_of_eq("if "@),
        free_of_eq(" then "@),
        free_of_eq(" exactly when "@),
        free_of_eq("for every "@),
        free_of_eq("there is some "@),
        free_of_eq(" such that "@),
        free_of_eq("it is not the case that ("@),
        free_of_eq("is less than"@),
        free_of_eq("is at most"@),
        free_of_eq("is greater than"@),
        free_of_eq("is at least"@),
{
    reveal_strlit("(");
    reveal_strlit(")");
    reveal_strlit(", ");
    reveal_strlit(" ");
    reveal_strlit(" is ");
    reveal_strlit(" in ");
    reveal_strlit(" and ");
    reveal_strlit(", and ");
    reveal_strlit(", or ");
    reveal_strlit("if ");
    reveal_strlit(" then ");
    reveal_strlit(" exactly when ");
    reveal_strlit("for every ");
    reveal_strlit("there is some ");
    reveal_strlit(" such that ");
    reveal_strlit("it is not the case that (");
    reveal_strlit("is less than");
    reveal_strlit("is at most");
    reveal_strlit("is greater than");
    reveal_strlit("is at least");
}

proof fn lemma_term_free(t: Term)
    requires
        term_plain(t),
    ensures
        free_of_eq(term_english(t)),
    decreases t,
{
    lemma_words_free();
    match t {
        Term::Var { name } => {},
        Term::Int { v } => {
            lemma_free_int(v as int);
        },
        Term::Real { v } => {},
        Term::App { name, args } => {
            if args@.len() > 0 {
                lemma_terms_free(args@);
                lemma_terms_english_len(args@);
                lemma_free_join(terms_english(args@), ", "@);
                lemma_free_concat(name@, "("@);
                lemma_free_concat(name@ + "("@, join(terms_english(args@), ", "@));
                lemma_free_concat(name@ + "("@ + join(terms_english(args@), ", "@), ")"@);
            }
        },
        Term::Arith { op, args } => {
            lemma_terms_free(args@);
            lemma_terms_english_len(args@);
            lemma_free_concat(" "@, op@);
            lemma_free_concat(" "@ + op@, " "@);
            lemma_free_join(terms_english(args@), " "@ + op@ + " "@);
        },
    }
}

proof fn lemma_terms_free(s: Seq<Term>)
    requires
        terms_plain(s),
    ensures
        forall|k: int| 0 <= k < terms_english(s).len() ==> free_of_eq(#[trigger] terms_english(s)[k]),
    decreases s,
{
    if s.len() > 0 {
        let p = s.subrange(0, s.len() - 1);
        lemma_terms_free(p);
        lemma_term_free(s[s.len() - 1]);
        lemma_terms_english_len(p);
        let e = terms_english(p);
        assert(terms_english(s) == e.push(term_english(s[s.len() - 1])));
        assert forall|k: int| 0 <= k < terms_english(s).len() implies free_of_eq(#[trigger] terms_english(s)[k]) by {
            if k < e.len() {
                assert(terms_english(s)[k] == e[k]);
            }
        }
    }
}

proof fn lemma_rel_free(rel: Seq<char>)
    requires
        rel_plain(rel),
    ensures
        free_of_eq(relation_words(rel)),
{
    lemma_words_free();
}

/// The English reading of a formula never contains `=` (so never an SMT
/// arrow `=>`, nor `=` itself) unless a name, operator, literal or
/// written relation in the formula does.
pub proof fn law_english_free_of_eq(f: Formula)
    requires
        form_plain(f),
    ensures
        free_of_eq(form_english(f)),
    decreases f,
{
    lemma_words_free();
    match f {
        Formula::Pred { name, args } => {
            if args@.len() > 0 {
                lemma_terms_free(args@);
                lemma_terms_english_len(args@);
                lemma_free_join(terms_english(args@), ", "@);
                lemma_free_concat(name@, "("@);
                lemma_free_concat(name@ + "("@, join(terms_english(args@), ", "@));
                lemma_free_concat(name@ + "("@ + join(terms_english(args@), ", "@), ")"@);
            }
        },
        Formula::Eq { a, b } => {
            lemma_term_free(a);
            lemma_term_free(b);
            lemma_free_concat(term_english(a), " is "@);
            lemma_free_concat(term_english(a) + " is "@, term_english(b));
        },
        Formula::Cmp { rel, a, b } => {
            lemma_term_free(a);
            lemma_term_free(b);
            lemma_rel_free(rel@);
            let w = relation_words(rel@);
            lemma_free_concat(term_english(a), " "@);
            lemma_free_concat(term_english(a) + " "@, w);
            lemma_free_concat(term_english(a) + " "@ + w, " "@);
            lemma_free_concat(term_english(a) + " "@ + w + " "@, term_english(b));
        },
        Formula::Not { x } => {
            law_english_free_of_eq(*x);
            lemma_free_concat("it is not the case that ("@, form_english(*x));
            lemma_free_concat("it is not the case that ("@ + form_english(*x), ")"@);
        },
        Formula::And { xs } => {
            lemma_forms_free(xs@);
            lemma_forms_english_len(xs@);
            lemma_free_join(forms_english(xs@), ", and "@);
        },
        Formula::Or { xs } => {
            lemma_forms_free(xs@);
            lemma_forms_english_len(xs@);
            lemma_free_join(forms_english(xs@), ", or "@);
        },
        Formula::Imp { a, b } => {
            law_english_free_of_eq(*a);
            law_english_free_of_eq(*b);
            lemma_free_concat("if "@, form_english(*a));
            lemma_free_concat("if "@ + form_english(*a), " then "@);
            lemma_free_concat("if "@ + form_english(*a) + " then "@, form_english(*b));
        },
        Formula::Iff { a, b } => {
            law_english_free_of_eq(*a);
            law_english_free_of_eq(*b);
            lemma_free_concat(form_english(*a), " exactly when "@);
            lemma_free_concat(form_english(*a) + " exactly when "@, form_english(*b));
        },
        Formula::Forall { vars, body } => {
            law_english_free_of_eq(*body);
            let qs = qvars_english(vars@);
            lemma_qvars_free(vars@);
            lemma_free_join(qs, " and "@);
            lemma_free_concat("for every "@, join(qs, " and "@));
            lemma_free_concat("for every "@ + join(qs, " and "@), ", "@);
            lemma_free_concat("for every "@ + join(qs, " and "@) + ", "@, form_english(*body));
        },
        Formula::Exists { vars, body } => {
            law_english_free_of_eq(*body);
            let qs = qvars_english(vars@);
            lemma_qvars_free(vars@);
            lemma_free_join(qs, " and "@);
            lemma_free_concat("there is some "@, join(qs, " and "@));
            lemma_free_concat("there is some "@ + join(qs, " and "@), " such that "@);
            lemma_free_concat("there is some "@ + join(qs, " and "@) + " such that "@, form_english(*body));
        },
    }
}

proof fn lemma_qvars_free(vars: Seq<QVar>)
    requires
        qvars_plain(vars),
    ensures
        forall|k: int| 0 <= k < qvars_english(vars).len() ==> free_of_eq(#[trigger] qvars_english(vars)[k]),
{
    lemma_words_free();
    assert forall|k: int| 0 <= k < qvars_english(vars).len() implies free_of_eq(#[trigger] qvars_english(vars)[k]) by {
        assert(qvar_plain(vars[k]));
        lemma_free_concat(vars[k].name@, " in "@);
        lemma_free_concat(vars[k].name@ + " in "@, vars[k].sort@);
    }
}

proof fn lemma_forms_free(s: Seq<Formula>)
    requires
        forms_plain(s),
    ensures
        forall|k: int| 0 <= k < forms_english(s).len() ==> free_of_eq(#[trigger] forms_english(s)[k]),
    decreases s,
{
    if s.len() > 0 {
        let p = s.subrange(0, s.len() - 1);
        lemma_forms_free(p);
        law_english_free_of_eq(s[s.len() - 1]);
        lemma_forms_english_len(p);
        let e = forms_english(p);
        assert(forms_english(s) == e.push(form_english(s[s.len() - 1])));
        assert forall|k: int| 0 <= k < forms_english(s).len() implies free_of_eq(#[trigger] forms_english(s)[k]) by {
            if k < e.len() {
                assert(forms_english(s)[k] == e[k]);
            }
        }
    }
}

} // verus!
