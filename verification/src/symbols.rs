//! The predicate and function symbols a claim uses, with the arity of
//! their first use.
use vstd::prelude::*;
use crate::ir::{Term, Formula, Claim};
use crate::symtab::SortedMap;
use crate::text::copy_string;

verus! {

/// Function symbols applied in a term, with their argument counts, in
/// the order a left-to-right walk meets them.
pub open spec fn term_funcs(t: Term) -> Seq<(Seq<char>, usize)>
    decreases t,
{
    match t {
        Term::App { name, args } => seq![(name@, args@.len() as usize)] + terms_funcs(args@),
        Term::Arith { op, args } => terms_funcs(args@),
        _ => Seq::empty(),
    }
}

pub open spec fn terms_funcs(s: Seq<Term>) -> Seq<(Seq<char>, usize)>
    decreases s,
{
    if s.len() == 0 {
        Seq::empty()
    } else {
        terms_funcs(s.subrange(0, s.len() - 1)) + term_funcs(s[s.len() - 1])
    }
}

/// Predicate symbols applied in a formula, with their argument counts,
/// in walk order.
pub open spec fn form_preds(f: Formula) -> Seq<(Seq<char>, usize)>
    decreases f,
{
    match f {
        Formula::Pred { name, args } => seq![(name@, args@.len() as usize)],
        Formula::Eq { a, b } => Seq::empty(),
        Formula::Cmp { rel, a, b } => Seq::empty(),
        Formula::Not { x } => form_preds(*x),
        Formula::And { xs } => forms_preds(xs@),
        Formula::Or { xs } => forms_preds(xs@),
        Formula::Imp { a, b } => form_preds(*a) + form_preds(*b),
        Formula::Iff { a, b } => form_preds(*a) + form_preds(*b),
        Formula::Forall { vars, body } => form_preds(*body),
        Formula::Exists { vars, body } => form_preds(*body),
    }
}

pub open spec fn forms_preds(s: Seq<Formula>) -> Seq<(Seq<char>, usize)>
    decreases s,
{
    if s.len() == 0 {
        Seq::empty()
    } else {
        forms_preds(s.subrange(0, s.len() - 1)) + form_preds(s[s.len() - 1])
    }
}

/// Function symbols applied in a formula, with their argument counts,
/// in walk order.
pub open spec fn form_funcs(f: Formula) -> Seq<(Seq<char>, usize)>
    decreases f,
{
    match f {
        Formula::Pred { name, args } => terms_funcs(args@),
        Formula::Eq { a, b } => term_funcs(a) + term_funcs(b),
        Formula::Cmp { rel, a, b } => term_funcs(a) + term_funcs(b),
        Formula::Not { x } => form_funcs(*x),
        Formula::And { xs } => forms_funcs(xs@),
        Formula::Or { xs } => forms_funcs(xs@),
        Formula::Imp { a, b } => form_funcs(*a) + form_funcs(*b),
        Formula::Iff { a, b } => form_funcs(*a) + form_funcs(*b),
        Formula::Forall { vars, body } => form_funcs(*body),
        Formula::Exists { vars, body } => form_funcs(*body),
    }
}

pub open spec fn forms_funcs(s: Seq<Formula>) -> Seq<(Seq<char>, usize)>
    decreases s,
{
    if s.len() == 0 {
        Seq::empty()
    } else {
        forms_funcs(s.subrange(0, s.len() - 1)) + form_funcs(s[s.len() - 1])
    }
}

/// Predicate uses over all claims, in order.
pub open spec fn claims_preds(cs: Seq<Claim>) -> Seq<(Seq<char>, usize)>
    decreases cs.len(),
{
    if cs.len() == 0 {
        Seq::empty()
    } else {
        claims_preds(cs.drop_last()) + form_preds(cs.last().formula)
    }
}

/// Function uses over all claims, in order.
pub open spec fn claims_funcs(cs: Seq<Claim>) -> Seq<(Seq<char>, usize)>
    decreases cs.len(),
{
    if cs.len() == 0 {
        Seq::empty()
    } else {
        claims_funcs(cs.drop_last()) + form_funcs(cs.last().formula)
    }
}

/// `m` extended, use by use, with each symbol not yet in it: every
/// symbol keeps the arity of its first use.
pub open spec fn absorb(m: Map<Seq<char>, usize>, occ: Seq<(Seq<char>, usize)>) -> Map<Seq<char>, usize>
    decreases occ.len(),
{
    if occ.len() == 0 {
        m
    } else {
        let m1 = absorb(m, occ.drop_last());
        let (k, v) = occ.last();
        if m1.contains_key(k) {
            m1
        } else {
            m1.insert(k, v)
        }
    }
}

pub proof fn lemma_absorb_append(m: Map<Seq<char>, usize>, a: Seq<(Seq<char>, usize)>, b: Seq<(Seq<char>, usize)>)
    ensures
        absorb(m, a + b) == absorb(absorb(m, a), b),
    decreases b.len(),
{
    if b.len() == 0 {
        assert(a + b =~= a);
    } else {
        lemma_absorb_append(m, a, b.drop_last());
        assert((a + b).drop_last() =~= a + b.drop_last());
        assert((a + b).last() == b.last());
    }
}

proof fn lemma_terms_funcs_step(s: Seq<Term>, i: int)
    requires
        0 <= i < s.len(),
    ensures
        terms_funcs(s.take(i + 1)) == terms_funcs(s.take(i)) + term_funcs(s[i]),
{
    assert(s.take(i + 1).subrange(0, i) =~= s.take(i));
}

proof fn lemma_forms_step(s: Seq<Formula>, i: int)
    requires
        0 <= i < s.len(),
    ensures
        forms_funcs(s.take(i + 1)) == forms_funcs(s.take(i)) + form_funcs(s[i]),
        forms_preds(s.take(i + 1)) == forms_preds(s.take(i)) + form_preds(s[i]),
{
    assert(s.take(i + 1).subrange(0, i) =~= s.take(i));
}

fn walk_terms(args: &Vec<Term>, f: &mut SortedMap<usize>)
    requires
        old(f).wf(),
    ensures
        final(f).wf(),
        final(f).table() == absorb(old(f).table(), terms_funcs(args@)),
    decreases args,
{
    let ghost start = f.table();
    let mut i: usize = 0;
    while i < args.len()
        invariant
            i <= args.len(),
            f.wf(),
            f.table() == absorb(start, terms_funcs(args@.take(i as int))),
        decreases args.len() - i,
    {
        proof {
            lemma_terms_funcs_step(args@, i as int);
            lemma_absorb_append(start, terms_funcs(args@.take(i as int)), term_funcs(args@[i as int]));
        }
        walk_term(&args[i], f);
        i = i + 1;
    }
    assert(args@.take(i as int) =~= args@);
}

/// Records the function symbols of `t` in `f` (first use wins).
pub fn walk_term(t: &Term, f: &mut SortedMap<usize>)
    requires
        old(f).wf(),
    ensures
        final(f).wf(),
        final(f).table() == absorb(old(f).table(), term_funcs(*t)),
    decreases t,
{
    match t {
        Term::App { name, args } => {
            let ghost start = f.table();
            f.insert_absent(copy_string(name), args.len());
            proof {
                let one = seq![(name@, args@.len() as usize)];
                assert(one.drop_last() =~= Seq::<(Seq<char>, usize)>::empty());
                assert(absorb(start, one.drop_last()) == start);
                assert(absorb(start, one) == f.table());
                lemma_absorb_append(start, one, terms_funcs(args@));
            }
            walk_terms(args, f);
        },
        Term::Arith { op, args } => {
            walk_terms(args, f);
        },
        _ => {
        },
    }
}

fn walk_forms(xs: &Vec<Formula>, p: &mut SortedMap<usize>, f: &mut SortedMap<usize>)
    requires
        old(p).wf(),
        old(f).wf(),
    ensures
        final(p).wf(),
        final(f).wf(),
        final(p).table() == absorb(old(p).table(), forms_preds(xs@)),
        final(f).table() == absorb(old(f).table(), forms_funcs(xs@)),
    decreases xs,
{
    let ghost sp = p.table();
    let ghost sf = f.table();
    let mut i: usize = 0;
    while i < xs.len()
        invariant
            i <= xs.len(),
            p.wf(),
            f.wf(),
            p.table() == absorb(sp, forms_preds(xs@.take(i as int))),
            f.table() == absorb(sf, forms_funcs(xs@.take(i as int))),
        decreases xs.len() - i,
    {
        proof {
            lemma_forms_step(xs@, i as int);
            lemma_absorb_append(sp, forms_preds(xs@.take(i as int)), form_preds(xs@[i as int]));
            lemma_absorb_append(sf, forms_funcs(xs@.take(i as int)), form_funcs(xs@[i as int]));
        }
        walk_form(&xs[i], p, f);
        i = i + 1;
    }
    assert(xs@.take(i as int) =~= xs@);
}

/// Records the predicate symbols of `form` in `p` and its function
/// symbols in `f` (first use wins).
pub fn walk_form(form: &Formula, p: &mut SortedMap<usize>, f: &mut SortedMap<usize>)
    requires
        old(p).wf(),
        old(f).wf(),
    ensures
        final(p).wf(),
        final(f).wf(),
        final(p).table() == absorb(old(p).table(), form_preds(*form)),
        final(f).table() == absorb(old(f).table(), form_funcs(*form)),
    decreases form,
{
    let ghost sp = p.table();
    let ghost sf = f.table();
    match form {
        Formula::Pred { name, args } => {
            p.insert_absent(copy_string(name), args.len());
            proof {
                let one = seq![(name@, args@.len() as usize)];
                assert(one.drop_last() =~= Seq::<(Seq<char>, usize)>::empty());
                assert(absorb(sp, one.drop_last()) == sp);
            }
            walk_terms(args, f);
        },
        Formula::Eq { a, b } => {
            walk_term(a, f);
            walk_term(b, f);
            proof {
                lemma_absorb_append(sf, term_funcs(*a), term_funcs(*b));
                assert(p.table() == absorb(sp, Seq::<(Seq<char>, usize)>::empty()));
            }
        },
        Formula::Cmp { rel, a, b } => {
            walk_term(a, f);
            walk_term(b, f);
            proof {
                lemma_absorb_append(sf, term_funcs(*a), term_funcs(*b));
                assert(p.table() == absorb(sp, Seq::<(Seq<char>, usize)>::empty()));
            }
        },
        Formula::Not { x } => {
            walk_form(x, p, f);
        },
        Formula::And { xs } => {
            walk_forms(xs, p, f);
        },
        Formula::Or { xs } => {
            walk_forms(xs, p, f);
        },
        Formula::Imp { a, b } => {
            walk_form(a, p, f);
            walk_form(b, p, f);
            proof {
                lemma_absorb_append(sp, form_preds(**a), form_preds(**b));
                lemma_absorb_append(sf, form_funcs(**a), form_funcs(**b));
            }
        },
        Formula::Iff { a, b } => {
            walk_form(a, p, f);
            walk_form(b, p, f);
            proof {
                lemma_absorb_append(sp, form_preds(**a), form_preds(**b));
                lemma_absorb_append(sf, form_funcs(**a), form_funcs(**b));
            }
        },
        Formula::Forall { vars, body } => {
            walk_form(body, p, f);
        },
        Formula::Exists { vars, body } => {
            walk_form(body, p, f);
        },
    }
}

/// The symbols every claim uses: predicates and functions, each with
/// the arity of its first use.
pub fn claim_symbols(cs: &Vec<Claim>) -> (r: (SortedMap<usize>, SortedMap<usize>))
    ensures
        r.0.wf(),
        r.1.wf(),
        r.0.table() == absorb(Map::empty(), claims_preds(cs@)),
        r.1.table() == absorb(Map::empty(), claims_funcs(cs@)),
{
    let mut p: SortedMap<usize> = SortedMap::new();
    let mut f: SortedMap<usize> = SortedMap::new();
    let mut i: usize = 0;
    proof {
        assert(cs@.take(0).len() == 0);
    }
    while i < cs.len()
        invariant
            i <= cs.len(),
            p.wf(),
            f.wf(),
            p.table() == absorb(Map::empty(), claims_preds(cs@.take(i as int))),
            f.table() == absorb(Map::empty(), claims_funcs(cs@.take(i as int))),
        decreases cs.len() - i,
    {
        proof {
            assert(cs@.take(i + 1).drop_last() =~= cs@.take(i as int));
            lemma_absorb_append(Map::empty(), claims_preds(cs@.take(i as int)), form_preds(cs@[i as int].formula));
            lemma_absorb_append(Map::empty(), claims_funcs(cs@.take(i as int)), form_funcs(cs@[i as int].formula));
        }
        walk_form(&cs[i].formula, &mut p, &mut f);
        i = i + 1;
    }
    assert(cs@.take(i as int) =~= cs@);
    (p, f)
}

} // verus!
