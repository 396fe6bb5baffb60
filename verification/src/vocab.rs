//! The texts handed to a language model: the vocabulary listing, the
//! formalization prompt, the belief-elicitation prompt and the triage
//! prompt for a minimal conflict.
use vstd::prelude::*;
use crate::ir::{Sig, Claim};
use crate::symtab::SortedMap;
use crate::world::{Core, concat, lemma_concat_push};
use crate::text::{join, nat_text, push_nat, push_joined, is_empty_text};
use crate::english::{form_english, push_form_english};
use crate::ingest::{find_id, find_claim};

verus! {

/// The formalization prompt up to the vocabulary: the IR grammar and the
/// rules the model is asked to follow.
pub const PROMPT_HEAD: &'static str = "You are a careful semiformalizer. Convert each natural-language claim below into\n\
a typed many-sorted first-order IR and return ONLY this JSON object:\n\
\n\
{\"sorts\":[\"Thing\"],\n\
\"preds\":[{\"name\":\"Bird\",\"args\":[\"Thing\"],\"gloss\":\"x is a bird\"}],\n\
\"funcs\":[{\"name\":\"age\",\"args\":[\"Thing\"],\"ret\":\"Int\",\"gloss\":\"age of x\"}],\n\
\"claims\":[{\"id\":\"c_slug\",\"source\":\"<the sentence verbatim>\",\n\
\"gloss\":\"<=6 words\",\"weight\":1,\n\
\"back\":\"<one plain-English sentence that says EXACTLY what your\n\
formula means — your own back-translation>\",\n\
\"formula\":{...}}]}\n\
\n\
FORMULA grammar (JSON, field \"op\"): pred{name,args} eq{a,b}\n\
cmp{rel:'<'|'<='|'>'|'>=',a,b} not{x} and{xs} or{xs} imp{a,b}\n\
iff{a,b} forall{vars:[{name,sort}],body} exists{vars,body}\n\
TERM grammar (field \"t\"): var{name} int{v} real{v}\n\
app{name,args} (a 0-arg app is a constant) arith{op:'+'|'-'|'*',args}\n\
\n\
Rules, most important first:\n\
1. REUSE names from the vocabulary below when the meaning matches. Minting a\n\
synonym is THE way contradiction-detection silently breaks. Only add new\n\
preds/funcs/sorts for genuinely new vocabulary, each with a gloss.\n\
2. One claim object per sentence; keep \"source\" verbatim. \"weight\" is how\n\
hard the claim is to give up (epistemic entrenchment, default 1).\n\
3. Prefer typed quantified formulas: \"penguins don't fly\" =>\n\
forall x:Thing. (=> (Penguin x) (not (Flies x))).\n\
4. \"back\" must paraphrase the FORMULA, not echo \"source\". If they\n\
would differ, trust the formula and let the human see the gap — that\n\
is the point of the field.\n\
5. No SMT-LIB, no prose, no code fences. JSON only.\n\
\n\
VOCABULARY:\n\
";

/// The opening of the belief-elicitation prompt, up to the number of
/// beliefs asked for.
pub const ELICIT_HEAD: &'static str = "You are stating beliefs you hold, to be checked for INTERNAL CONSISTENCY\n\
by a theorem prover. This is not a test of truth and not a trick: list\n\
";

/// The body of the belief-elicitation prompt, up to the domain: the IR
/// grammar, the reuse discipline and the honest framing.
pub const ELICIT_MID: &'static str = " separate, confident, atomic beliefs you hold about the domain below,\n\
each formalized in a typed many-sorted first-order IR. Return ONLY this\n\
JSON object:\n\
\n\
{\"sorts\":[\"Thing\"],\n\
\"preds\":[{\"name\":\"Bird\",\"args\":[\"Thing\"],\"gloss\":\"x is a bird\"}],\n\
\"funcs\":[{\"name\":\"age\",\"args\":[\"Thing\"],\"ret\":\"Int\",\"gloss\":\"age of x\"}],\n\
\"claims\":[{\"id\":\"c_slug\",\"source\":\"<the belief, your own words>\",\n\
\"gloss\":\"<=6 words\",\"back\":\"<one sentence: exactly what the\n\
formula says>\",\"formula\":{...}}]}\n\
\n\
FORMULA grammar (JSON, field \"op\"): pred{name,args} eq{a,b}\n\
cmp{rel:'<'|'<='|'>'|'>=',a,b} not{x} and{xs} or{xs} imp{a,b}\n\
iff{a,b} forall{vars:[{name,sort}],body} exists{vars,body}\n\
TERM grammar (field \"t\"): var{name} int{v} real{v}\n\
app{name,args} (0-arg app = a constant) arith{op:'+'|'-'|'*',args}\n\
\n\
Rules, most important first:\n\
1. REUSE one symbol per concept. If two beliefs are about the same\n\
predicate/constant they MUST use the same name — minting a synonym is\n\
exactly how a real inner contradiction hides. Reuse the vocabulary\n\
below when it fits; add new symbols (with a gloss) only when needed.\n\
2. State beliefs you would actually defend, including ones that feel\n\
OBVIOUS — latent contradictions live among the obvious ones (general\n\
rules vs. specific cases, transitive relations, category membership).\n\
3. Prefer typed quantified formulas for general rules:\n\
\"penguins don't fly\" => forall x:Thing.(=> (Penguin x) (not (Flies x))).\n\
4. Do not self-censor for consistency — state them independently. The\n\
prover, not you, decides whether they cohere. We test ONLY whether\n\
THESE STATEMENTS are mutually consistent: not their truth, not your\n\
\"real\" beliefs. Be candid; that is the point.\n\
5. No SMT-LIB, no prose, no code fences. JSON only.\n\
\n\
DOMAIN:\n\
";

/// The opening of the triage prompt, before the conflicting claims.
pub const TRIAGE_HEAD: &'static str = "These claims were found *mutually contradictory* by a theorem prover:\n\
\n\
";

/// The question the triage prompt asks about the conflict, and the reply
/// shape, up to the vocabulary.
pub const TRIAGE_MID: &'static str = "\n\
Decide ONE thing: is the contradiction INTRINSIC (the sentences\n\
themselves genuinely disagree — a real belief conflict the user must\n\
resolve) or FORMALIZATION (the sentences are compatible; a mistranslation\n\
into logic introduced the clash — e.g. a default read as a hard rule, a\n\
reused symbol that should differ, a wrong quantifier)?\n\
\n\
Return ONLY this JSON:\n\
{\"verdict\":\"intrinsic\"|\"formalization\",\n\
\"reason\":\"<one sentence, plain English>\",\n\
\"fix\":<null, OR an IR object {\\\"sorts\\\":[],\\\"preds\\\":[],\\\"funcs\\\":[],\\\"claims\\\":[...]}\n\
that REPLACES the mis-formalized claims — reuse the SAME ids,\n\
keep \\\"source\\\" verbatim, change only the formula/flags so the\n\
sentences no longer falsely clash; null if verdict is intrinsic>}\n\
\n\
Vocabulary in play:\n\
";

/// What the listing says when there is nothing to list.
pub open spec fn empty_vocabulary() -> Seq<char> {
    "  (vocabulary empty — declare what you need)\n"@
}

/// A function's result sort as text; nothing when it has none.
pub open spec fn ret_text(ret: Option<String>) -> Seq<char> {
    match ret {
        Some(r) => r@,
        None => Seq::empty(),
    }
}

/// The listing line of one entry of the declaration order, or nothing
/// when its name has no signature of that kind.
pub open spec fn registry_line(kind: char, name: Seq<char>, preds: SortedMap<Sig>, funcs: SortedMap<Sig>) -> Seq<char> {
    if kind == 'p' {
        match preds.lookup(name) {
            Some(p) => "  pred "@ + p.name@ + "("@ + join(p.args.deep_view(), ", "@) + ") — "@ + p.gloss@ + "\n"@,
            None => Seq::empty(),
        }
    } else {
        match funcs.lookup(name) {
            Some(f) => "  func "@ + f.name@ + "("@ + join(f.args.deep_view(), ", "@) + ") : "@ + ret_text(f.ret)
                + " — "@ + f.gloss@ + "\n"@,
            None => Seq::empty(),
        }
    }
}

/// The sorts line (when there are user sorts) and one line per declared
/// symbol, in declaration order.
pub open spec fn registry_body(c: Core) -> Seq<char> {
    (if c.sorts@.len() > 0 {
        "  sorts: "@ + join(c.sorts.deep_view(), ", "@) + "\n"@
    } else {
        Seq::empty()
    }) + concat(c.decl_order@.map_values(|e: (char, String)| registry_line(e.0, e.1@, c.preds, c.funcs)))
}

/// The vocabulary as the prompts show it.
pub open spec fn registry_text(c: Core) -> Seq<char> {
    let b = registry_body(c);
    if b.len() == 0 {
        empty_vocabulary()
    } else {
        b
    }
}

/// The formalization prompt for the sentences `nl`.
pub open spec fn prompt_text(c: Core, nl: Seq<char>) -> Seq<char> {
    PROMPT_HEAD@ + registry_text(c) + "\nCLAIM(S) TO FORMALIZE:\n"@ + nl + "\n"@
}

/// The prompt asking for `n` beliefs about `domain`.
pub open spec fn elicitation_text(c: Core, domain: Seq<char>, n: nat) -> Seq<char> {
    ELICIT_HEAD@ + nat_text(n) + ELICIT_MID@ + domain + "\n\nVOCABULARY ALREADY IN PLAY (reuse it):\n"@
        + registry_text(c) + "\n"@
}

/// What the triage prompt says of one conflicting claim: its id, its
/// sentence (the gloss when the sentence is blank), its English reading
/// and its IR text.
pub open spec fn triage_entry(c: Claim, ir: Seq<char>) -> Seq<char> {
    "- id "@ + c.id@ + "\n  sentence: "@ + (if c.source@.len() == 0 {
        c.gloss@
    } else {
        c.source@
    }) + "\n  reads as: "@ + form_english(c.formula) + "\n  IR: "@ + ir + "\n"@
}

/// The entry of one listed id: that of the first claim with the id, or
/// nothing when no claim has it.
pub open spec fn triage_piece(cs: Seq<Claim>, irs: Seq<Seq<char>>, id: Seq<char>) -> Seq<char> {
    let j = find_id(cs, id);
    if j >= 0 {
        triage_entry(cs[j], irs[j])
    } else {
        Seq::empty()
    }
}

/// The entries of the listed ids; `irs[k]` is the IR text of claim `k`.
pub open spec fn triage_block(cs: Seq<Claim>, irs: Seq<Seq<char>>, ids: Seq<Seq<char>>) -> Seq<char> {
    concat(ids.map_values(|id: Seq<char>| triage_piece(cs, irs, id)))
}

/// The triage prompt for a conflict among the claims `ids`.
pub open spec fn triage_text(c: Core, irs: Seq<Seq<char>>, ids: Seq<Seq<char>>) -> Seq<char> {
    TRIAGE_HEAD@ + triage_block(c.claims@, irs, ids) + TRIAGE_MID@ + registry_text(c)
        + "\nNo prose, no code fences. JSON only.\n"@
}

impl Core {
    fn push_registry_line(&self, out: &mut String, kind: char, name: &String)
        requires
            self.wf(),
        ensures
            final(out)@ == old(out)@ + registry_line(kind, name@, self.preds, self.funcs),
    {
        let ghost before = out@;
        if kind == 'p' {
            match self.preds.get(name.as_str()) {
                Some(p) => {
                    out.append("  pred ");
                    out.append(p.name.as_str());
                    out.append("(");
                    push_joined(out, &p.args, ", ");
                    out.append(") — ");
                    out.append(p.gloss.as_str());
                    out.append("\n");
                },
                None => {
                    assert(out@ =~= before + Seq::<char>::empty());
                },
            }
        } else {
            match self.funcs.get(name.as_str()) {
                Some(f) => {
                    out.append("  func ");
                    out.append(f.name.as_str());
                    out.append("(");
                    push_joined(out, &f.args, ", ");
                    out.append(") : ");
                    match &f.ret {
                        Some(r) => out.append(r.as_str()),
                        None => {},
                    }
                    out.append(" — ");
                    out.append(f.gloss.as_str());
                    out.append("\n");
                },
                None => {
                    assert(out@ =~= before + Seq::<char>::empty());
                },
            }
        }
    }

    /// The vocabulary listing: the user sorts, then each declared
    /// predicate and function with its signature and gloss, in the order
    /// they were declared; a fixed note when there is nothing to list.
    pub fn registry_view(&self) -> (r: String)
        requires
            self.wf(),
        ensures
            r@ == registry_text(*self),
    {
        let mut s = String::new();
        if self.sorts.len() > 0 {
            s.append("  sorts: ");
            push_joined(&mut s, &self.sorts, ", ");
            s.append("\n");
        }
        let ghost mid = s@;
        let ghost dl = self.decl_order@.map_values(
            |e: (char, String)| registry_line(e.0, e.1@, self.preds, self.funcs),
        );
        let mut j: usize = 0;
        proof {
            assert(concat(dl.take(0)) =~= Seq::<char>::empty()) by {
                assert(dl.take(0) =~= Seq::<Seq<char>>::empty());
            }
        }
        while j < self.decl_order.len()
            invariant
                j <= self.decl_order.len(),
                self.wf(),
                dl == self.decl_order@.map_values(
                    |e: (char, String)| registry_line(e.0, e.1@, self.preds, self.funcs),
                ),
                s@ == mid + concat(dl.take(j as int)),
            decreases self.decl_order.len() - j,
        {
            proof {
                lemma_concat_push(dl.take(j as int), dl[j as int]);
                assert(dl.take(j as int).push(dl[j as int]) =~= dl.take(j + 1));
            }
            self.push_registry_line(&mut s, self.decl_order[j].0, &self.decl_order[j].1);
            j = j + 1;
        }
        assert(dl.take(j as int) =~= dl);
        assert(s@ == registry_body(*self));
        if is_empty_text(s.as_str()) {
            let mut e = String::new();
            e.append("  (vocabulary empty — declare what you need)\n");
            e
        } else {
            s
        }
    }

    /// The prompt that asks a model to formalize the sentences `nl` in
    /// the claim IR, reusing the vocabulary in play.
    pub fn prompt(&self, nl: &str) -> (r: String)
        requires
            self.wf(),
        ensures
            r@ == prompt_text(*self, nl@),
    {
        let reg = self.registry_view();
        let mut s = String::new();
        s.append(PROMPT_HEAD);
        s.append(reg.as_str());
        s.append("\nCLAIM(S) TO FORMALIZE:\n");
        s.append(nl);
        s.append("\n");
        s
    }

    /// The prompt that asks a model to state `n` of its own beliefs
    /// about `domain` in the claim IR, framed as a test of their mutual
    /// consistency only.
    pub fn belief_elicitation_prompt(&self, domain: &str, n: usize) -> (r: String)
        requires
            self.wf(),
        ensures
            r@ == elicitation_text(*self, domain@, n as nat),
    {
        let reg = self.registry_view();
        let mut s = String::new();
        s.append(ELICIT_HEAD);
        push_nat(&mut s, n as u64);
        s.append(ELICIT_MID);
        s.append(domain);
        s.append("\n\nVOCABULARY ALREADY IN PLAY (reuse it):\n");
        s.append(reg.as_str());
        s.append("\n");
        s
    }

    /// The prompt that asks whether the conflict among the claims `ids`
    /// is intrinsic or an artifact of the formalization. `irs[k]` is the
    /// IR text of claim `k`; ids that name no claim are left out.
    pub fn triage_prompt(&self, ids: &Vec<String>, irs: &Vec<String>) -> (r: String)
        requires
            self.wf(),
            irs@.len() == self.claims@.len(),
        ensures
            r@ == triage_text(*self, irs.deep_view(), ids.deep_view()),
    {
        let ghost cs = self.claims@;
        let ghost iv = irs.deep_view();
        let ghost parts = ids.deep_view().map_values(|id: Seq<char>| triage_piece(cs, iv, id));
        let mut s = String::new();
        s.append(TRIAGE_HEAD);
        let ghost start = s@;
        let mut k: usize = 0;
        proof {
            assert(concat(parts.take(0)) =~= Seq::<char>::empty()) by {
                assert(parts.take(0) =~= Seq::<Seq<char>>::empty());
            }
        }
        while k < ids.len()
            invariant
                k <= ids@.len(),
                cs == self.claims@,
                iv == irs.deep_view(),
                iv.len() == cs.len(),
                parts == ids.deep_view().map_values(|id: Seq<char>| triage_piece(cs, iv, id)),
                s@ == start + concat(parts.take(k as int)),
            decreases ids.len() - k,
        {
            proof {
                lemma_concat_push(parts.take(k as int), parts[k as int]);
                assert(parts.take(k as int).push(parts[k as int]) =~= parts.take(k + 1));
            }
            let ghost before = s@;
            match find_claim(&self.claims, ids[k].as_str()) {
                Some(j) => {
                    proof {
                        assert(ids.deep_view()[k as int] == ids@[k as int]@);
                        assert(parts[k as int] == triage_piece(cs, iv, ids@[k as int]@));
                        assert(iv[j as int] == irs@[j as int]@);
                        assert(find_id(cs, ids@[k as int]@) == j as int);
                        assert(triage_piece(cs, iv, ids@[k as int]@) == triage_entry(cs[j as int], iv[j as int]));
                    }
                    let c = &self.claims[j];
                    s.append("- id ");
                    s.append(c.id.as_str());
                    s.append("\n  sentence: ");
                    if is_empty_text(c.source.as_str()) {
                        s.append(c.gloss.as_str());
                    } else {
                        s.append(c.source.as_str());
                    }
                    s.append("\n  reads as: ");
                    push_form_english(&mut s, &c.formula);
                    s.append("\n  IR: ");
                    s.append(irs[j].as_str());
                    s.append("\n");
                    assert(s@ =~= before + triage_entry(cs[j as int], iv[j as int]));
                },
                None => {
                    proof {
                        assert(ids.deep_view()[k as int] == ids@[k as int]@);
                        assert(parts[k as int] == triage_piece(cs, iv, ids@[k as int]@));
                    }
                    assert(s@ =~= start + concat(parts.take(k as int)) + Seq::<char>::empty());
                },
            }
            proof {
                assert(s@ == before + parts[k as int]);
                assert(before + parts[k as int] =~= start + (concat(parts.take(k as int)) + parts[k as int]));
            }
            k = k + 1;
        }
        assert(parts.take(k as int) =~= parts);
        let reg = self.registry_view();
        s.append(TRIAGE_MID);
        s.append(reg.as_str());
        s.append("\nNo prose, no code fences. JSON only.\n");
        s
    }
}

} // verus!
