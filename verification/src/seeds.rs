//! Two ready-made world-models: the penguin example, and a project-status
//! belief set with three overlapping disagreements.
use vstd::prelude::*;
use crate::ir::{Sig, Term, QVar, Formula, Claim, Ingest};
use crate::world::Core;
use crate::ingest::{ingest_effect, blank_id_errors};
use crate::text::{is_blank, is_ws};

verus! {

/// `f` is the proposition `p`.
pub open spec fn is_prop(f: Formula, p: Seq<char>) -> bool {
    f matches Formula::Pred { name, args } && name@ == p && args@.len() == 0
}

/// `f` is the negation of the proposition `p`.
pub open spec fn is_not_prop(f: Formula, p: Seq<char>) -> bool {
    f matches Formula::Not { x } && is_prop(*x, p)
}

/// `f` is `p ⇒ q` over propositions.
pub open spec fn is_prop_rule(f: Formula, p: Seq<char>, q: Seq<char>) -> bool {
    f matches Formula::Imp { a, b } && is_prop(*a, p) && is_prop(*b, q)
}

/// `f` is `p(x)` for the variable `x`.
pub open spec fn is_pred_of_var(f: Formula, p: Seq<char>, x: Seq<char>) -> bool {
    f matches Formula::Pred { name, args } && name@ == p && args@.len() == 1 && (args@[0] matches Term::Var {
        name: v,
    } && v@ == x)
}

/// `f` is `p(c)` for the constant `c`.
pub open spec fn is_fact(f: Formula, p: Seq<char>, c: Seq<char>) -> bool {
    f matches Formula::Pred { name, args } && name@ == p && args@.len() == 1 && (args@[0] matches Term::App {
        name: k,
        args: ka,
    } && k@ == c && ka@.len() == 0)
}

/// `f` is `∀x:s. p(x) ⇒ q(x)`.
pub open spec fn is_rule(f: Formula, x: Seq<char>, s: Seq<char>, p: Seq<char>, q: Seq<char>) -> bool {
    f matches Formula::Forall { vars, body } && vars@.len() == 1 && vars@[0].name@ == x && vars@[0].sort@ == s
        && (*body matches Formula::Imp { a, b } && is_pred_of_var(*a, p, x) && is_pred_of_var(*b, q, x))
}

/// `g` is the signature `name(args) [: ret] — gloss`.
pub open spec fn sig_is(g: Sig, name: Seq<char>, args: Seq<Seq<char>>, ret: Option<Seq<char>>, gloss: Seq<char>) -> bool {
    &&& g.name@ == name
    &&& g.args.deep_view() == args
    &&& match ret {
        None => g.ret is None,
        Some(r) => g.ret matches Some(x) && x@ == r,
    }
    &&& g.gloss@ == gloss
}

/// `c` is an active strict claim with this id, sentence, gloss and
/// weight, and no back-translation.
pub open spec fn claim_is(c: Claim, id: Seq<char>, source: Seq<char>, gloss: Seq<char>, weight: i64) -> bool {
    &&& c.id@ == id
    &&& c.source@ == source
    &&& c.gloss@ == gloss
    &&& c.back@.len() == 0
    &&& c.weight == weight
    &&& c.active
    &&& !c.defeasible
}

/// The penguin world-model: birds fly, every penguin is a bird, Tweety
/// is a penguin.
pub open spec fn demo_batch_is(b: Ingest) -> bool {
    &&& b.sorts.deep_view() == seq!["Thing"@]
    &&& b.preds@.len() == 3
    &&& sig_is(b.preds@[0], "Bird"@, seq!["Thing"@], None, "x is a bird"@)
    &&& sig_is(b.preds@[1], "Flies"@, seq!["Thing"@], None, "x can fly"@)
    &&& sig_is(b.preds@[2], "Penguin"@, seq!["Thing"@], None, "x is a penguin"@)
    &&& b.funcs@.len() == 1
    &&& sig_is(b.funcs@[0], "tweety"@, Seq::empty(), Some("Thing"@), "the bird Tweety"@)
    &&& b.claims@.len() == 3
    &&& claim_is(b.claims@[0], "c_birds_fly"@, "Birds can fly."@, "birds fly"@, 2)
    &&& is_rule(b.claims@[0].formula, "x"@, "Thing"@, "Bird"@, "Flies"@)
    &&& claim_is(b.claims@[1], "c_penguin_bird"@, "Every penguin is a bird."@, "penguin ⇒ bird"@, 5)
    &&& is_rule(b.claims@[1].formula, "x"@, "Thing"@, "Penguin"@, "Bird"@)
    &&& claim_is(b.claims@[2], "c_tweety_penguin"@, "Tweety is a penguin."@, "Tweety is a penguin"@, 4)
    &&& is_fact(b.claims@[2].formula, "Penguin"@, "tweety"@)
}

/// The project-status world-model: three overlapping disagreements
/// around shipping, testing, review and quality, and two independent
/// facts.
pub open spec fn scenario_batch_is(b: Ingest) -> bool {
    &&& b.sorts@.len() == 0
    &&& b.funcs@.len() == 0
    &&& b.preds@.len() == 6
    &&& sig_is(b.preds@[0], "Ships"@, Seq::empty(), None, "the project ships this week"@)
    &&& sig_is(b.preds@[1], "TestsPass"@, Seq::empty(), None, "the test suite passes"@)
    &&& sig_is(b.preds@[2], "Reviewed"@, Seq::empty(), None, "the code was reviewed"@)
    &&& sig_is(b.preds@[3], "QualityHigh"@, Seq::empty(), None, "quality is high"@)
    &&& sig_is(b.preds@[4], "BudgetOK"@, Seq::empty(), None, "the budget is fine"@)
    &&& sig_is(b.preds@[5], "TeamHappy"@, Seq::empty(), None, "the team is happy"@)
    &&& b.claims@.len() == 9
    &&& claim_is(b.claims@[0], "c_ships"@, "The project ships this week."@, "it ships"@, 3)
    &&& is_prop(b.claims@[0].formula, "Ships"@)
    &&& claim_is(b.claims@[1], "c_ship_needs_tests"@, "If it ships, the tests pass."@, "ship ⇒ tests"@, 4)
    &&& is_prop_rule(b.claims@[1].formula, "Ships"@, "TestsPass"@)
    &&& claim_is(b.claims@[2], "c_tests_fail"@, "The tests do not pass."@, "tests fail"@, 2)
    &&& is_not_prop(b.claims@[2].formula, "TestsPass"@)
    &&& claim_is(b.claims@[3], "c_ship_needs_review"@, "If it ships, the code was reviewed."@, "ship ⇒ review"@, 4)
    &&& is_prop_rule(b.claims@[3].formula, "Ships"@, "Reviewed"@)
    &&& claim_is(b.claims@[4], "c_not_reviewed"@, "The code was not reviewed."@, "not reviewed"@, 2)
    &&& is_not_prop(b.claims@[4].formula, "Reviewed"@)
    &&& claim_is(b.claims@[5], "c_quality"@, "Quality is high."@, "high quality"@, 3)
    &&& is_prop(b.claims@[5].formula, "QualityHigh"@)
    &&& claim_is(b.claims@[6], "c_quality_needs_review"@, "High quality requires code review."@, "quality ⇒ review"@, 5)
    &&& is_prop_rule(b.claims@[6].formula, "QualityHigh"@, "Reviewed"@)
    &&& claim_is(b.claims@[7], "c_budget"@, "The budget is fine."@, "budget ok"@, 3)
    &&& is_prop(b.claims@[7].formula, "BudgetOK"@)
    &&& claim_is(b.claims@[8], "c_team"@, "The team is happy."@, "team happy"@, 3)
    &&& is_prop(b.claims@[8].formula, "TeamHappy"@)
}

fn text(s: &str) -> (r: String)
    ensures
        r@ == s@,
{
    String::from_str(s)
}

fn var_term(x: &str) -> (r: Term)
    ensures
        r matches Term::Var { name } && name@ == x@,
{
    Term::Var { name: text(x) }
}

fn pred_of_var(p: &str, x: &str) -> (r: Formula)
    ensures
        is_pred_of_var(r, p@, x@),
{
    let mut args: Vec<Term> = Vec::new();
    args.push(var_term(x));
    Formula::Pred { name: text(p), args }
}

fn prop(p: &str) -> (r: Formula)
    ensures
        is_prop(r, p@),
{
    Formula::Pred { name: text(p), args: Vec::new() }
}

fn not_prop(p: &str) -> (r: Formula)
    ensures
        is_not_prop(r, p@),
{
    Formula::Not { x: Box::new(prop(p)) }
}

fn prop_rule(p: &str, q: &str) -> (r: Formula)
    ensures
        is_prop_rule(r, p@, q@),
{
    Formula::Imp { a: Box::new(prop(p)), b: Box::new(prop(q)) }
}

fn fact(p: &str, c: &str) -> (r: Formula)
    ensures
        is_fact(r, p@, c@),
{
    let mut args: Vec<Term> = Vec::new();
    args.push(Term::App { name: text(c), args: Vec::new() });
    Formula::Pred { name: text(p), args }
}

fn rule(x: &str, s: &str, p: &str, q: &str) -> (r: Formula)
    ensures
        is_rule(r, x@, s@, p@, q@),
{
    let mut vars: Vec<QVar> = Vec::new();
    vars.push(QVar { name: text(x), sort: text(s) });
    Formula::Forall {
        vars,
        body: Box::new(Formula::Imp { a: Box::new(pred_of_var(p, x)), b: Box::new(pred_of_var(q, x)) }),
    }
}

fn unary_sig(name: &str, sort: &str, gloss: &str) -> (r: Sig)
    ensures
        sig_is(r, name@, seq![sort@], None, gloss@),
{
    let mut args: Vec<String> = Vec::new();
    args.push(text(sort));
    let r = Sig { name: text(name), args, ret: None, gloss: text(gloss) };
    assert(r.args.deep_view() =~= seq![sort@]);
    r
}

fn prop_sig(name: &str, gloss: &str) -> (r: Sig)
    ensures
        sig_is(r, name@, Seq::empty(), None, gloss@),
{
    let r = Sig { name: text(name), args: Vec::new(), ret: None, gloss: text(gloss) };
    assert(r.args.deep_view() =~= Seq::<Seq<char>>::empty());
    r
}

fn claim(id: &str, source: &str, gloss: &str, weight: i64, formula: Formula) -> (r: Claim)
    ensures
        claim_is(r, id@, source@, gloss@, weight),
        r.formula == formula,
{
    Claim {
        id: text(id),
        source: text(source),
        gloss: text(gloss),
        formula,
        back: String::new(),
        weight,
        active: true,
        defeasible: false,
    }
}

/// The penguin world-model as a batch.
pub fn demo_batch() -> (b: Ingest)
    ensures
        demo_batch_is(b),
{
    let mut sorts: Vec<String> = Vec::new();
    sorts.push(text("Thing"));
    let mut preds: Vec<Sig> = Vec::new();
    preds.push(unary_sig("Bird", "Thing", "x is a bird"));
    preds.push(unary_sig("Flies", "Thing", "x can fly"));
    preds.push(unary_sig("Penguin", "Thing", "x is a penguin"));
    let mut funcs: Vec<Sig> = Vec::new();
    let tweety = Sig { name: text("tweety"), args: Vec::new(), ret: Some(text("Thing")), gloss: text("the bird Tweety") };
    assert(tweety.args.deep_view() =~= Seq::<Seq<char>>::empty());
    funcs.push(tweety);
    let mut claims: Vec<Claim> = Vec::new();
    claims.push(claim("c_birds_fly", "Birds can fly.", "birds fly", 2, rule("x", "Thing", "Bird", "Flies")));
    claims.push(
        claim("c_penguin_bird", "Every penguin is a bird.", "penguin ⇒ bird", 5, rule("x", "Thing", "Penguin", "Bird")),
    );
    claims.push(claim("c_tweety_penguin", "Tweety is a penguin.", "Tweety is a penguin", 4, fact("Penguin", "tweety")));
    let b = Ingest { sorts, preds, funcs, claims };
    assert(b.sorts.deep_view() =~= seq!["Thing"@]);
    b
}

/// The project-status world-model as a batch.
pub fn scenario_batch() -> (b: Ingest)
    ensures
        scenario_batch_is(b),
{
    let mut preds: Vec<Sig> = Vec::new();
    preds.push(prop_sig("Ships", "the project ships this week"));
    preds.push(prop_sig("TestsPass", "the test suite passes"));
    preds.push(prop_sig("Reviewed", "the code was reviewed"));
    preds.push(prop_sig("QualityHigh", "quality is high"));
    preds.push(prop_sig("BudgetOK", "the budget is fine"));
    preds.push(prop_sig("TeamHappy", "the team is happy"));
    let mut claims: Vec<Claim> = Vec::new();
    claims.push(claim("c_ships", "The project ships this week.", "it ships", 3, prop("Ships")));
    claims.push(
        claim("c_ship_needs_tests", "If it ships, the tests pass.", "ship ⇒ tests", 4, prop_rule("Ships", "TestsPass")),
    );
    claims.push(claim("c_tests_fail", "The tests do not pass.", "tests fail", 2, not_prop("TestsPass")));
    claims.push(
        claim(
            "c_ship_needs_review",
            "If it ships, the code was reviewed.",
            "ship ⇒ review",
            4,
            prop_rule("Ships", "Reviewed"),
        ),
    );
    claims.push(claim("c_not_reviewed", "The code was not reviewed.", "not reviewed", 2, not_prop("Reviewed")));
    claims.push(claim("c_quality", "Quality is high.", "high quality", 3, prop("QualityHigh")));
    claims.push(
        claim(
            "c_quality_needs_review",
            "High quality requires code review.",
            "quality ⇒ review",
            5,
            prop_rule("QualityHigh", "Reviewed"),
        ),
    );
    claims.push(claim("c_budget", "The budget is fine.", "budget ok", 3, prop("BudgetOK")));
    claims.push(claim("c_team", "The team is happy.", "team happy", 3, prop("TeamHappy")));
    Ingest { sorts: Vec::new(), preds, funcs: Vec::new(), claims }
}

/// An id that starts with a non-blank character is not blank.
proof fn lemma_not_blank(s: Seq<char>)
    requires
        s.len() > 0,
        !is_ws(s[0]),
    ensures
        !is_blank(s),
{
}

impl Core {
    /// Folds the penguin world-model in: birds fly, every penguin is a
    /// bird, Tweety is a penguin.
    pub fn seed_demo(&mut self)
        requires
            old(self).wf(),
        ensures
            final(self).wf(),
            exists|b: Ingest| demo_batch_is(b) && ingest_effect(*old(self), *final(self), b),
    {
        let b = demo_batch();
        proof {
            reveal_strlit("c_birds_fly");
            reveal_strlit("c_penguin_bird");
            reveal_strlit("c_tweety_penguin");
            let cs = b.claims@;
            assert forall|i: int| 0 <= i < cs.len() implies !is_blank(#[trigger] cs[i].id@) by {
                lemma_not_blank(cs[i].id@);
            }
            lemma_no_blank_ids(cs);
        }
        let ghost bv = b;
        let (ok, _errs) = self.ingest(b);
        assert(ok);
        assert(demo_batch_is(bv) && ingest_effect(*old(self), *self, bv));
    }

    /// Folds the project-status world-model in: three overlapping
    /// disagreements and two independent facts.
    pub fn seed_scenario(&mut self)
        requires
            old(self).wf(),
        ensures
            final(self).wf(),
            exists|b: Ingest| scenario_batch_is(b) && ingest_effect(*old(self), *final(self), b),
    {
        let b = scenario_batch();
        proof {
            reveal_strlit("c_ships");
            reveal_strlit("c_ship_needs_tests");
            reveal_strlit("c_tests_fail");
            reveal_strlit("c_ship_needs_review");
            reveal_strlit("c_not_reviewed");
            reveal_strlit("c_quality");
            reveal_strlit("c_quality_needs_review");
            reveal_strlit("c_budget");
            reveal_strlit("c_team");
            let cs = b.claims@;
            assert forall|i: int| 0 <= i < cs.len() implies !is_blank(#[trigger] cs[i].id@) by {
                lemma_not_blank(cs[i].id@);
            }
            lemma_no_blank_ids(cs);
        }
        let ghost bv = b;
        let (ok, _errs) = self.ingest(b);
        assert(ok);
        assert(scenario_batch_is(bv) && ingest_effect(*old(self), *self, bv));
    }
}

/// No message for claims whose ids are all non-blank.
proof fn lemma_no_blank_ids(cs: Seq<Claim>)
    requires
        forall|i: int| 0 <= i < cs.len() ==> !is_blank(#[trigger] cs[i].id@),
    ensures
        blank_id_errors(cs).len() == 0,
    decreases cs.len(),
{
    if cs.len() > 0 {
        let d = cs.drop_last();
        assert forall|i: int| 0 <= i < d.len() implies !is_blank(#[trigger] d[i].id@) by {
            assert(d[i] == cs[i]);
        }
        lemma_no_blank_ids(d);
        assert(cs.last() == cs[cs.len() - 1]);
    }
}

} // verus!
