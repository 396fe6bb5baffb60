//! Folding a pasted batch into the world-model: new sorts and symbols
//! are added, a claim with a known id replaces the old one (a revision,
//! not an append), and symbols a claim uses without declaring them are
//! declared from their use.
use vstd::prelude::*;
use crate::ir::{Sig, Claim, Ingest};
use crate::symtab::{SortedMap, sorted_keys};
use crate::symbols::{absorb, claims_preds, claims_funcs, claim_symbols};
use crate::text::{copy_string, str_eq, contains_str, blank, is_blank};
use crate::world::Core;

verus! {

/// A signature read as plain values.
pub struct SigView {
    pub name: Seq<char>,
    pub args: Seq<Seq<char>>,
    pub ret: Option<Seq<char>>,
    pub gloss: Seq<char>,
}

pub open spec fn sig_view(s: Sig) -> SigView {
    SigView {
        name: s.name@,
        args: s.args.deep_view(),
        ret: match s.ret {
            Some(r) => Some(r@),
            None => None,
        },
        gloss: s.gloss@,
    }
}

/// The signatures of a table, read as plain values.
pub open spec fn sig_table(m: SortedMap<Sig>) -> Map<Seq<char>, SigView> {
    m.table().map_values(|s: Sig| sig_view(s))
}

/// `Bool`, `Int` and `Real` are built in and never declared.
pub open spec fn builtin_sort(s: Seq<char>) -> bool {
    s == "Bool"@ || s == "Int"@ || s == "Real"@
}

/// The sort list extended, in order, with each new non-builtin sort.
pub open spec fn merge_sorts(cur: Seq<Seq<char>>, new: Seq<Seq<char>>) -> Seq<Seq<char>>
    decreases new.len(),
{
    if new.len() == 0 {
        cur
    } else {
        let m = merge_sorts(cur, new.drop_last());
        let so = new.last();
        if builtin_sort(so) || m.contains(so) {
            m
        } else {
            m.push(so)
        }
    }
}

/// The signature table and declaration order extended, in order, with
/// each signature whose name is new (a known name keeps its old
/// signature).
pub open spec fn merge_sigs(
    t: Map<Seq<char>, SigView>,
    order: Seq<(char, Seq<char>)>,
    kind: char,
    new: Seq<Sig>,
) -> (Map<Seq<char>, SigView>, Seq<(char, Seq<char>)>)
    decreases new.len(),
{
    if new.len() == 0 {
        (t, order)
    } else {
        let (m, o) = merge_sigs(t, order, kind, new.drop_last());
        let s = new.last();
        if m.contains_key(s.name@) {
            (m, o)
        } else {
            (m.insert(s.name@, sig_view(s)), o.push((kind, s.name@)))
        }
    }
}

/// Position of the first claim with this id, or -1.
pub open spec fn find_id(cs: Seq<Claim>, id: Seq<char>) -> int
    decreases cs.len(),
{
    if cs.len() == 0 {
        -1
    } else {
        let r = find_id(cs.drop_last(), id);
        if r >= 0 {
            r
        } else if cs.last().id@ == id {
            cs.len() - 1
        } else {
            -1
        }
    }
}

/// The claims after a batch: a claim whose id is already present
/// replaces the first claim with that id; any other is appended.
pub open spec fn merge_claims(cs: Seq<Claim>, new: Seq<Claim>) -> Seq<Claim>
    decreases new.len(),
{
    if new.len() == 0 {
        cs
    } else {
        let m = merge_claims(cs, new.drop_last());
        let c = new.last();
        let j = find_id(m, c.id@);
        if j >= 0 {
            m.update(j, c)
        } else {
            m.push(c)
        }
    }
}

/// The sort that undeclared symbols are given: the first user sort, or
/// `U` when there is none.
pub open spec fn default_sort(sorts: Seq<Seq<char>>) -> Seq<char> {
    if sorts.len() > 0 {
        sorts[0]
    } else {
        "U"@
    }
}

/// Predicates used by the claims, with the arity of their first use.
pub open spec fn used_preds(cs: Seq<Claim>) -> Map<Seq<char>, usize> {
    absorb(Map::empty(), claims_preds(cs))
}

/// Functions and constants used by the claims, with the arity of their
/// first use.
pub open spec fn used_funcs(cs: Seq<Claim>) -> Map<Seq<char>, usize> {
    absorb(Map::empty(), claims_funcs(cs))
}

/// Some used symbol has no signature yet.
pub open spec fn needs_default(
    pt: Map<Seq<char>, SigView>,
    ft: Map<Seq<char>, SigView>,
    cs: Seq<Claim>,
) -> bool {
    (exists|k: Seq<char>| used_preds(cs).contains_key(k) && !pt.contains_key(k)) || (exists|
        k: Seq<char>,
    | used_funcs(cs).contains_key(k) && !ft.contains_key(k))
}

/// The signature declared for a symbol known only from its use: every
/// argument (and a function's result) of the default sort.
pub open spec fn inferred_sig(name: Seq<char>, arity: nat, dflt: Seq<char>, is_func: bool) -> SigView {
    SigView {
        name,
        args: Seq::new(arity, |i: int| dflt),
        ret: if is_func {
            Some(dflt)
        } else {
            None
        },
        gloss: "(inferred from use)"@,
    }
}

/// The table and new declarations after declaring, key by key, each
/// used symbol that has no signature yet.
pub open spec fn grow_decls(
    t: Map<Seq<char>, SigView>,
    keys: Seq<Seq<char>>,
    used: Map<Seq<char>, usize>,
    dflt: Seq<char>,
    kind: char,
) -> (Map<Seq<char>, SigView>, Seq<(char, Seq<char>)>)
    decreases keys.len(),
{
    if keys.len() == 0 {
        (t, Seq::empty())
    } else {
        let (t1, d1) = grow_decls(t, keys.drop_last(), used, dflt, kind);
        let k = keys.last();
        if t1.contains_key(k) {
            (t1, d1)
        } else {
            (
                t1.insert(k, inferred_sig(k, used[k] as nat, dflt, kind == 'f')),
                d1.push((kind, k)),
            )
        }
    }
}

/// The error messages a batch is refused with; empty when it is
/// accepted.
pub open spec fn ingest_errors(ing: Ingest) -> Seq<Seq<char>> {
    if ing.claims@.len() == 0 {
        seq!["no claims in the pasted IR"@]
    } else {
        blank_id_errors(ing.claims@)
    }
}

/// One message per claim whose id is blank.
pub open spec fn blank_id_errors(cs: Seq<Claim>) -> Seq<Seq<char>>
    decreases cs.len(),
{
    if cs.len() == 0 {
        Seq::empty()
    } else if is_blank(cs.last().id@) {
        blank_id_errors(cs.drop_last()).push("a claim has an empty id"@)
    } else {
        blank_id_errors(cs.drop_last())
    }
}

proof fn lemma_sig_table_insert(m: SortedMap<Sig>, m2: SortedMap<Sig>, k: Seq<char>, s: Sig)
    requires
        m2.table() == m.table().insert(k, s),
    ensures
        sig_table(m2) == sig_table(m).insert(k, sig_view(s)),
{
    assert(sig_table(m2) =~= sig_table(m).insert(k, sig_view(s)));
}

/// Whether some key of `used` has no entry in `tab`.
fn lacks_some(tab: &SortedMap<Sig>, used: &SortedMap<usize>) -> (r: bool)
    requires
        tab.wf(),
        used.wf(),
    ensures
        r == exists|k: Seq<char>| used.table().contains_key(k) && !sig_table(*tab).contains_key(k),
{
    let mut i: usize = 0;
    while i < used.entries.len()
        invariant
            i <= used.entries.len(),
            tab.wf(),
            used.wf(),
            forall|j: int| 0 <= j < i ==> tab.has(#[trigger] used.key_at(j)),
        decreases used.entries.len() - i,
    {
        if !tab.contains_key(used.entries[i].0.as_str()) {
            proof {
                used.lemma_lookup_at(i as int);
                assert(used.table().contains_key(used.key_at(i as int)));
                assert(!sig_table(*tab).contains_key(used.key_at(i as int)));
            }
            return true;
        }
        i = i + 1;
    }
    proof {
        if exists|k: Seq<char>| used.table().contains_key(k) && !sig_table(*tab).contains_key(k) {
            let k = choose|k: Seq<char>| used.table().contains_key(k) && !sig_table(*tab).contains_key(k);
            let j = used.index_of(k);
            assert(tab.has(used.key_at(j)));
        }
    }
    false
}

/// Declares, in key order, each key of `used` that has no signature in
/// `tab`: arguments (and a function's result) of sort `dflt`.
fn declare_used(
    tab: &mut SortedMap<Sig>,
    decl: &mut Vec<(char, String)>,
    used: &SortedMap<usize>,
    dflt: &String,
    kind: char,
)
    requires
        old(tab).wf(),
        used.wf(),
    ensures
        final(tab).wf(),
        ({
            let (t, dd) = grow_decls(sig_table(*old(tab)), used.keys(), used.table(), dflt@, kind);
            &&& sig_table(*final(tab)) == t
            &&& final(decl).deep_view() == old(decl).deep_view() + dd
        }),
{
    let ghost t0 = sig_table(*tab);
    let ghost d0 = decl.deep_view();
    let ghost ut = used.table();
    let mut i: usize = 0;
    proof {
        assert(used.keys().take(0) =~= Seq::<Seq<char>>::empty());
        assert(decl.deep_view() =~= d0 + Seq::<(char, Seq<char>)>::empty());
    }
    while i < used.entries.len()
        invariant
            i <= used.entries.len(),
            used.wf(),
            tab.wf(),
            ut == used.table(),
            ({
                let (t, dd) = grow_decls(t0, used.keys().take(i as int), ut, dflt@, kind);
                &&& sig_table(*tab) == t
                &&& decl.deep_view() == d0 + dd
            }),
        decreases used.entries.len() - i,
    {
        let name = &used.entries[i].0;
        let ar = used.entries[i].1;
        proof {
            assert(used.keys().take(i + 1).drop_last() =~= used.keys().take(i as int));
            used.lemma_lookup_at(i as int);
            assert(ut[name@] == ar);
        }
        if !tab.contains_key(name.as_str()) {
            let ghost dpre = decl.deep_view();
            decl.push((kind, copy_string(name)));
            let sig = Sig {
                name: copy_string(name),
                args: repeat_string(dflt, ar),
                ret: if kind == 'f' {
                    Some(copy_string(dflt))
                } else {
                    None
                },
                gloss: String::from_str("(inferred from use)"),
            };
            proof {
                assert(sig_view(sig).args =~= Seq::new(ut[name@] as nat, |j: int| dflt@));
                assert(sig_view(sig) == inferred_sig(name@, ut[name@] as nat, dflt@, kind == 'f'));
            }
            let ghost before = *tab;
            tab.insert(copy_string(name), sig);
            proof {
                lemma_sig_table_insert(before, *tab, name@, sig);
                let (t, dd) = grow_decls(t0, used.keys().take(i as int), ut, dflt@, kind);
                assert(decl.deep_view() =~= dpre.push((kind, name@)));
                assert(decl.deep_view() =~= d0 + dd.push((kind, name@)));
            }
        }
        i = i + 1;
    }
    proof {
        assert(used.keys().take(i as int) =~= used.keys());
    }
}

impl Core {
    /// Declares every symbol the claims use but no signature names:
    /// the first user sort (or `U`, added as a sort) for each argument
    /// and function result, predicates first, each kind in name order.
    pub fn autodeclare(&mut self)
        requires
            old(self).wf(),
        ensures
            final(self).wf(),
            final(self).claims@ == old(self).claims@,
            ({
                let cs = old(self).claims@;
                let d = default_sort(old(self).sorts.deep_view());
                let need = needs_default(sig_table(old(self).preds), sig_table(old(self).funcs), cs);
                let (pt, pd) = grow_decls(sig_table(old(self).preds), sorted_keys(used_preds(cs)), used_preds(cs), d, 'p');
                let (ft, fd) = grow_decls(sig_table(old(self).funcs), sorted_keys(used_funcs(cs)), used_funcs(cs), d, 'f');
                &&& final(self).sorts.deep_view() == if need && !old(self).sorts.deep_view().contains(d) {
                    old(self).sorts.deep_view().push(d)
                } else {
                    old(self).sorts.deep_view()
                }
                &&& sig_table(final(self).preds) == pt
                &&& sig_table(final(self).funcs) == ft
                &&& final(self).decl_order.deep_view() == old(self).decl_order.deep_view() + pd + fd
            }),
    {
        let ghost old_core = *self;
        let (p, f) = claim_symbols(&self.claims);
        proof {
            p.lemma_keys_sorted();
            f.lemma_keys_sorted();
        }
        let dflt: String = if self.sorts.len() > 0 {
            copy_string(&self.sorts[0])
        } else {
            String::from_str("U")
        };
        let need = lacks_some(&self.preds, &p) || lacks_some(&self.funcs, &f);
        if need && !contains_str(&self.sorts, dflt.as_str()) {
            let d = copy_string(&dflt);
            self.sorts.push(d);
            proof {
                assert(self.sorts.deep_view() =~= old_core.sorts.deep_view().push(dflt@));
            }
        }
        declare_used(&mut self.preds, &mut self.decl_order, &p, &dflt, 'p');
        declare_used(&mut self.funcs, &mut self.decl_order, &f, &dflt, 'f');
    }
}

/// Adds, in order, each new non-builtin sort.
fn merge_sorts_into(sorts: &mut Vec<String>, new: &Vec<String>)
    ensures
        final(sorts).deep_view() == merge_sorts(old(sorts).deep_view(), new.deep_view()),
{
    let ghost s0 = sorts.deep_view();
    let mut i: usize = 0;
    proof {
        assert(new.deep_view().take(0) =~= Seq::<Seq<char>>::empty());
    }
    while i < new.len()
        invariant
            i <= new.len(),
            sorts.deep_view() == merge_sorts(s0, new.deep_view().take(i as int)),
        decreases new.len() - i,
    {
        proof {
            assert(new.deep_view().take(i + 1).drop_last() =~= new.deep_view().take(i as int));
        }
        let so = &new[i];
        let builtin = str_eq(so.as_str(), "Bool") || str_eq(so.as_str(), "Int") || str_eq(so.as_str(), "Real");
        if !builtin && !contains_str(sorts, so.as_str()) {
            let ghost pre = sorts.deep_view();
            sorts.push(copy_string(so));
            proof {
                assert(sorts.deep_view() =~= pre.push(so@));
            }
        }
        i = i + 1;
    }
    proof {
        assert(new.deep_view().take(i as int) =~= new.deep_view());
    }
}

/// Adds, in order, each signature whose name is new, noting it in the
/// declaration order.
fn merge_sigs_into(tab: &mut SortedMap<Sig>, decl: &mut Vec<(char, String)>, kind: char, new: Vec<Sig>)
    requires
        old(tab).wf(),
    ensures
        final(tab).wf(),
        ({
            let (t, o) = merge_sigs(sig_table(*old(tab)), old(decl).deep_view(), kind, new@);
            &&& sig_table(*final(tab)) == t
            &&& final(decl).deep_view() == o
        }),
{
    let ghost t0 = sig_table(*tab);
    let ghost d0 = decl.deep_view();
    let ghost all = new@;
    let mut rest = new;
    let mut k: usize = 0;
    proof {
        assert(all.take(0) =~= Seq::<Sig>::empty());
        assert(rest@ =~= all.skip(0));
        assert(all.len() == rest.len());
    }
    while rest.len() > 0
        invariant
            k <= all.len(),
            rest@ == all.skip(k as int),
            rest@.len() == all.len() - k,
            all.len() <= usize::MAX,
            tab.wf(),
            ({
                let (t, o) = merge_sigs(t0, d0, kind, all.take(k as int));
                &&& sig_table(*tab) == t
                &&& decl.deep_view() == o
            }),
        decreases rest.len(),
    {
        let sg = rest.remove(0);
        proof {
            assert(sg == all[k as int]);
            assert(all.take(k + 1).drop_last() =~= all.take(k as int));
            assert(rest@ =~= all.skip(k + 1));
        }
        let key = copy_string(&sg.name);
        if !tab.contains_key(key.as_str()) {
            let ghost dpre = decl.deep_view();
            decl.push((kind, copy_string(&key)));
            proof {
                assert(decl.deep_view() =~= dpre.push((kind, key@)));
            }
            let ghost before = *tab;
            tab.insert(key, sg);
            proof {
                lemma_sig_table_insert(before, *tab, sg.name@, sg);
            }
        }
        k = k + 1;
    }
    proof {
        assert(all.take(k as int) =~= all);
    }
}

/// Position of the first claim with id `id`, if any.
pub fn find_claim(cs: &Vec<Claim>, id: &str) -> (r: Option<usize>)
    ensures
        match r {
            Some(j) => find_id(cs@, id@) == j && j < cs@.len(),
            None => find_id(cs@, id@) == -1,
        },
{
    let mut j: usize = 0;
    while j < cs.len()
        invariant
            j <= cs.len(),
            find_id(cs@.take(j as int), id@) == -1,
        decreases cs.len() - j,
    {
        proof {
            assert(cs@.take(j + 1).drop_last() =~= cs@.take(j as int));
        }
        if str_eq(cs[j].id.as_str(), id) {
            proof {
                lemma_find_id_prefix(cs@, j as int + 1, id@);
            }
            return Some(j);
        }
        j = j + 1;
    }
    proof {
        assert(cs@.take(j as int) =~= cs@);
    }
    None
}

/// A hit in a prefix is the first hit overall.
pub proof fn lemma_find_id_prefix(cs: Seq<Claim>, n: int, id: Seq<char>)
    requires
        0 <= n <= cs.len(),
        find_id(cs.take(n), id) >= 0,
    ensures
        find_id(cs, id) == find_id(cs.take(n), id),
    decreases cs.len() - n,
{
    if n < cs.len() {
        assert(cs.take(n + 1).drop_last() =~= cs.take(n));
        lemma_find_id_prefix(cs, n + 1, id);
    } else {
        assert(cs.take(n) =~= cs);
    }
}

/// Folds a batch of claims in: a known id is a revision in place.
fn merge_claims_into(cs: &mut Vec<Claim>, new: Vec<Claim>)
    ensures
        final(cs)@ == merge_claims(old(cs)@, new@),
{
    let ghost c0 = cs@;
    let ghost all = new@;
    let mut rest = new;
    let mut k: usize = 0;
    proof {
        assert(all.take(0) =~= Seq::<Claim>::empty());
        assert(rest@ =~= all.skip(0));
        assert(all.len() == rest.len());
    }
    while rest.len() > 0
        invariant
            k <= all.len(),
            rest@ == all.skip(k as int),
            rest@.len() == all.len() - k,
            all.len() <= usize::MAX,
            cs@ == merge_claims(c0, all.take(k as int)),
        decreases rest.len(),
    {
        let c = rest.remove(0);
        proof {
            assert(c == all[k as int]);
            assert(all.take(k + 1).drop_last() =~= all.take(k as int));
            assert(rest@ =~= all.skip(k + 1));
        }
        match find_claim(cs, c.id.as_str()) {
            Some(j) => {
                cs.set(j, c);
            },
            None => {
                cs.push(c);
            },
        }
        k = k + 1;
    }
    proof {
        assert(all.take(k as int) =~= all);
    }
}

/// The refusal messages for a batch.
fn ingest_error_list(ing: &Ingest) -> (r: Vec<String>)
    ensures
        r.deep_view() == ingest_errors(*ing),
{
    let mut errs: Vec<String> = Vec::new();
    if ing.claims.len() == 0 {
        errs.push(String::from_str("no claims in the pasted IR"));
        assert(errs.deep_view() =~= seq!["no claims in the pasted IR"@]);
        return errs;
    }
    let mut i: usize = 0;
    proof {
        assert(ing.claims@.take(0) =~= Seq::<Claim>::empty());
        assert(errs.deep_view() =~= Seq::<Seq<char>>::empty());
    }
    while i < ing.claims.len()
        invariant
            i <= ing.claims.len(),
            errs.deep_view() == blank_id_errors(ing.claims@.take(i as int)),
        decreases ing.claims.len() - i,
    {
        proof {
            assert(ing.claims@.take(i + 1).drop_last() =~= ing.claims@.take(i as int));
        }
        if blank(ing.claims[i].id.as_str()) {
            let ghost pre = errs.deep_view();
            errs.push(String::from_str("a claim has an empty id"));
            proof {
                assert(errs.deep_view() =~= pre.push("a claim has an empty id"@));
            }
        }
        i = i + 1;
    }
    proof {
        assert(ing.claims@.take(i as int) =~= ing.claims@);
    }
    errs
}

/// What folding an accepted batch in does: new non-builtin sorts are
/// added, each signature under a new name is added (an existing name
/// keeps its signature), each claim replaces the first claim with its id
/// or is appended, and symbols used without a signature are declared
/// from their use, with the default sort added when one of them needs it.
pub open spec fn ingest_effect(pre: Core, post: Core, ing: Ingest) -> bool {
    let sorts1 = merge_sorts(pre.sorts.deep_view(), ing.sorts.deep_view());
    let (pt1, o1) = merge_sigs(sig_table(pre.preds), pre.decl_order.deep_view(), 'p', ing.preds@);
    let (ft1, o2) = merge_sigs(sig_table(pre.funcs), o1, 'f', ing.funcs@);
    let cs = merge_claims(pre.claims@, ing.claims@);
    let d = default_sort(sorts1);
    let need = needs_default(pt1, ft1, cs);
    let (pt, pd) = grow_decls(pt1, sorted_keys(used_preds(cs)), used_preds(cs), d, 'p');
    let (ft, fd) = grow_decls(ft1, sorted_keys(used_funcs(cs)), used_funcs(cs), d, 'f');
    &&& post.claims@ == cs
    &&& post.sorts.deep_view() == if need && !sorts1.contains(d) {
        sorts1.push(d)
    } else {
        sorts1
    }
    &&& sig_table(post.preds) == pt
    &&& sig_table(post.funcs) == ft
    &&& post.decl_order.deep_view() == o2 + pd + fd
}

impl Core {
    /// Folds a pasted batch in. A batch with no claims, or with a claim
    /// whose id is blank, is refused with one message per problem and
    /// changes nothing. Otherwise new non-builtin sorts are added, each
    /// predicate and function signature under a new name is added (an
    /// existing name keeps its signature), each claim replaces the first
    /// claim with its id or is appended, and symbols used without a
    /// signature are declared from their use.
    pub fn ingest(&mut self, ing: Ingest) -> (r: (bool, Vec<String>))
        requires
            old(self).wf(),
        ensures
            final(self).wf(),
            r.1.deep_view() == ingest_errors(ing),
            r.0 == (ingest_errors(ing).len() == 0),
            !r.0 ==> *final(self) == *old(self),
            r.0 ==> ingest_effect(*old(self), *final(self), ing),
    {
        let errs = ingest_error_list(&ing);
        if errs.len() > 0 {
            return (false, errs);
        }
        let Ingest { sorts, preds, funcs, claims } = ing;
        merge_sorts_into(&mut self.sorts, &sorts);
        merge_sigs_into(&mut self.preds, &mut self.decl_order, 'p', preds);
        merge_sigs_into(&mut self.funcs, &mut self.decl_order, 'f', funcs);
        merge_claims_into(&mut self.claims, claims);
        self.autodeclare();
        (true, errs)
    }
}

/// `n` copies of `s`.
pub fn repeat_string(s: &String, n: usize) -> (r: Vec<String>)
    ensures
        r.deep_view() == Seq::new(n as nat, |i: int| s@),
{
    let mut r: Vec<String> = Vec::new();
    let mut i: usize = 0;
    while i < n
        invariant
            i <= n,
            r@.len() == i,
            forall|j: int| 0 <= j < i ==> #[trigger] r@[j]@ == s@,
        decreases n - i,
    {
        r.push(copy_string(s));
        i = i + 1;
    }
    assert(r.deep_view() =~= Seq::new(n as nat, |i: int| s@));
    r
}

} // verus!
