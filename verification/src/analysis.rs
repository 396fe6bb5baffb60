//! The analysis step machine: consistency, then a minimal conflict by
//! deletion, then the repair of least total entrenchment among the
//! subsets of that conflict. It hands out one solver script at a time
//! and is fed the solver's answer.
use vstd::prelude::*;
use crate::ir::Claim;
use crate::world::{Core, assume_script, active_ids, entrenchment};
use crate::ingest::find_id;
use crate::answers::{first_nonblank_line, core_ids, z3_head, z3_core_ids};
use crate::text::{copy_string, copy_strings, str_eq, contains_str};

verus! {

/// `s` begins with `p`.
pub open spec fn starts_with(s: Seq<char>, p: Seq<char>) -> bool {
    s.len() >= p.len() && s.take(p.len() as int) == p
}

/// The entrenchment of the first claim with this id (1 when there is
/// none).
pub open spec fn weight_of(cs: Seq<Claim>, id: Seq<char>) -> int {
    let j = find_id(cs, id);
    if j >= 0 {
        entrenchment(cs[j])
    } else {
        1
    }
}

/// Total entrenchment of a list of ids.
pub open spec fn total_weight(cs: Seq<Claim>, ids: Seq<Seq<char>>) -> int
    decreases ids.len(),
{
    if ids.len() == 0 {
        0
    } else {
        total_weight(cs, ids.drop_last()) + weight_of(cs, ids.last())
    }
}

/// The ids whose bit is set in `mask`, among the first `k`.
pub open spec fn mask_subset(ids: Seq<Seq<char>>, mask: u32, k: int) -> Seq<Seq<char>>
    decreases k,
{
    if k <= 0 {
        Seq::empty()
    } else {
        let r = mask_subset(ids, mask, k - 1);
        if k - 1 < 32 && mask & (1u32 << ((k - 1) as u32)) != 0 {
            r.push(ids[k - 1])
        } else {
            r
        }
    }
}

/// Every non-empty subset of `ids`, in mask order 1, 2, ...
pub open spec fn subsets_by_mask(ids: Seq<Seq<char>>) -> Seq<Seq<Seq<char>>> {
    Seq::new(((1u32 << (ids.len() as u32)) - 1) as nat, |m: int| mask_subset(ids, (m + 1) as u32, ids.len() as int))
}

/// The sort key of a subset: total entrenchment, then size.
pub open spec fn subset_key(cs: Seq<Claim>, s: Seq<Seq<char>>) -> (int, int) {
    (total_weight(cs, s), s.len() as int)
}

pub open spec fn key_le(a: (int, int), b: (int, int)) -> bool {
    a.0 < b.0 || (a.0 == b.0 && a.1 <= b.1)
}

/// `x` placed after every element whose key is not larger (the step of
/// a stable insertion sort).
pub open spec fn insert_stable(cs: Seq<Claim>, s: Seq<Seq<Seq<char>>>, x: Seq<Seq<char>>) -> Seq<Seq<Seq<char>>>
    decreases s.len(),
{
    if s.len() == 0 {
        seq![x]
    } else if key_le(subset_key(cs, s.last()), subset_key(cs, x)) {
        s.push(x)
    } else {
        insert_stable(cs, s.drop_last(), x).push(s.last())
    }
}

/// `s` stably sorted by subset key (the order `sort_by_key` gives).
pub open spec fn stable_sort(cs: Seq<Claim>, s: Seq<Seq<Seq<char>>>) -> Seq<Seq<Seq<char>>>
    decreases s.len(),
{
    if s.len() == 0 {
        Seq::empty()
    } else {
        insert_stable(cs, stable_sort(cs, s.drop_last()), s.last())
    }
}

/// Every non-empty subset of `ids`, cheapest first (total entrenchment,
/// then size; ties in mask order).
pub open spec fn subsets_by_weight(cs: Seq<Claim>, ids: Seq<Seq<char>>) -> Seq<Seq<Seq<char>>> {
    stable_sort(cs, subsets_by_mask(ids))
}

impl Core {
    /// The entrenchment of the first claim with this id, 1 when none.
    pub fn weight_of(&self, id: &str) -> (r: i64)
        ensures
            r == weight_of(self.claims@, id@),
    {
        let mut j: usize = 0;
        while j < self.claims.len()
            invariant
                j <= self.claims.len(),
                find_id(self.claims@.take(j as int), id@) == -1,
            decreases self.claims.len() - j,
        {
            proof {
                assert(self.claims@.take(j + 1).drop_last() =~= self.claims@.take(j as int));
            }
            if str_eq(self.claims[j].id.as_str(), id) {
                proof {
                    crate::ingest::lemma_find_id_prefix(self.claims@, j as int + 1, id@);
                }
                let w = self.claims[j].weight;
                return if w < 1 {
                    1
                } else {
                    w
                };
            }
            j = j + 1;
        }
        proof {
            assert(self.claims@.take(j as int) =~= self.claims@);
        }
        1
    }
}

fn total_weight_of(core: &Core, ids: &Vec<String>) -> (r: i128)
    requires
        ids@.len() < 32,
    ensures
        r == total_weight(core.claims@, ids.deep_view()),
{
    let mut t: i128 = 0;
    let mut i: usize = 0;
    proof {
        assert(ids.deep_view().take(0) =~= Seq::<Seq<char>>::empty());
    }
    while i < ids.len()
        invariant
            i <= ids.len(),
            ids@.len() < 32,
            t == total_weight(core.claims@, ids.deep_view().take(i as int)),
            0 <= t <= i * 0x8000_0000_0000_0000,
        decreases ids.len() - i,
    {
        proof {
            assert(ids.deep_view().take(i + 1).drop_last() =~= ids.deep_view().take(i as int));
        }
        let w = core.weight_of(ids[i].as_str());
        t = t + w as i128;
        i = i + 1;
    }
    proof {
        assert(ids.deep_view().take(i as int) =~= ids.deep_view());
    }
    t
}

fn mask_subset_exec(ids: &Vec<String>, mask: u32) -> (r: Vec<String>)
    requires
        ids@.len() < 32,
    ensures
        r.deep_view() == mask_subset(ids.deep_view(), mask, ids@.len() as int),
        r@.len() <= ids@.len(),
{
    let mut v: Vec<String> = Vec::new();
    let mut b: usize = 0;
    while b < ids.len()
        invariant
            b <= ids.len(),
            ids@.len() < 32,
            v.deep_view() == mask_subset(ids.deep_view(), mask, b as int),
            v@.len() <= b,
        decreases ids.len() - b,
    {
        if mask & (1u32 << (b as u32)) != 0 {
            let ghost pre = v.deep_view();
            v.push(copy_string(&ids[b]));
            proof {
                assert(v.deep_view() =~= pre.push(ids.deep_view()[b as int]));
            }
        }
        b = b + 1;
    }
    v
}

/// Every non-empty subset of `ids`, cheapest first: ascending total
/// entrenchment, then size, ties in mask order.
pub fn powerset_by_weight(core: &Core, ids: &Vec<String>) -> (r: Vec<Vec<String>>)
    requires
        ids@.len() < 32,
    ensures
        r@.len() == subsets_by_weight(core.claims@, ids.deep_view()).len(),
        forall|j: int| 0 <= j < r@.len() ==> #[trigger] r@[j].deep_view() == subsets_by_weight(
            core.claims@,
            ids.deep_view(),
        )[j],
        forall|j: int| 0 <= j < r@.len() ==> #[trigger] r@[j]@.len() < 32,
{
    let n = ids.len();
    let top: u32 = 1u32 << (n as u32);
    proof {
        assert(1u32 << (n as u32) >= 1u32) by (bit_vector)
            requires
                n < 32,
        ;
    }
    let ghost all = subsets_by_mask(ids.deep_view());
    let ghost cs = core.claims@;
    let mut subs: Vec<Vec<String>> = Vec::new();
    let mut keys: Vec<(i128, usize)> = Vec::new();
    let mut mask: u32 = 1;
    proof {
        assert(all.take(0) =~= Seq::<Seq<Seq<char>>>::empty());
    }
    while mask < top
        invariant
            1 <= mask <= top,
            top == 1u32 << (n as u32),
            n == ids@.len(),
            n < 32,
            all == subsets_by_mask(ids.deep_view()),
            cs == core.claims@,
            subs@.len() == keys@.len(),
            Seq::new(subs@.len(), |j: int| subs@[j].deep_view()) == stable_sort(cs, all.take(mask - 1)),
            forall|j: int| 0 <= j < keys@.len() ==> (keys@[j].0 as int, keys@[j].1 as int) == #[trigger] subset_key(cs, subs@[j].deep_view()),
            forall|j: int| 0 <= j < subs@.len() ==> #[trigger] subs@[j]@.len() < 32,
        decreases top - mask,
    {
        let v = mask_subset_exec(ids, mask);
        let w = total_weight_of(core, &v);
        let key = (w, v.len());
        proof {
            assert(all[mask - 1] == v.deep_view());
            assert(all.take(mask as int).drop_last() =~= all.take(mask - 1));
        }
        let ghost sorted = Seq::new(subs@.len(), |j: int| subs@[j].deep_view());
        // stable insertion: after every element whose key is not larger
        let mut j: usize = subs.len();
        proof {
            assert(sorted.take(j as int) =~= sorted);
            assert(sorted.skip(j as int) =~= Seq::<Seq<Seq<char>>>::empty());
            assert(insert_stable(cs, sorted, v.deep_view()) =~= insert_stable(cs, sorted.take(j as int), v.deep_view())
                + sorted.skip(j as int));
        }
        while j > 0 && !(keys[j - 1].0 < key.0 || (keys[j - 1].0 == key.0 && keys[j - 1].1 <= key.1))
            invariant
                j <= subs@.len(),
                subs@.len() == keys@.len(),
                sorted == Seq::new(subs@.len(), |j: int| subs@[j].deep_view()),
                insert_stable(cs, sorted, v.deep_view()) == insert_stable(cs, sorted.take(j as int), v.deep_view())
                    + sorted.skip(j as int),
                forall|j: int| 0 <= j < keys@.len() ==> (keys@[j].0 as int, keys@[j].1 as int) == #[trigger] subset_key(cs, subs@[j].deep_view()),
                (key.0 as int, key.1 as int) == subset_key(cs, v.deep_view()),
            decreases j,
        {
            proof {
                let t = sorted.take(j as int);
                assert(t.drop_last() =~= sorted.take(j - 1));
                assert(t.last() == sorted[j - 1]);
                assert(subset_key(cs, subs@[j - 1].deep_view()) == (keys@[j - 1].0 as int, keys@[j - 1].1 as int));
                assert(sorted.skip(j - 1) =~= seq![sorted[j - 1]] + sorted.skip(j as int));
                assert(insert_stable(cs, sorted.take(j - 1), v.deep_view()).push(sorted[j - 1]) + sorted.skip(j as int)
                    =~= insert_stable(cs, sorted.take(j - 1), v.deep_view()) + sorted.skip(j - 1));
            }
            j = j - 1;
        }
        proof {
            let t = sorted.take(j as int);
            if j > 0 {
                assert(t.last() == sorted[j - 1]);
                assert(subset_key(cs, subs@[j - 1].deep_view()) == (keys@[j - 1].0 as int, keys@[j - 1].1 as int));
            }
            assert(insert_stable(cs, t, v.deep_view()) =~= t.push(v.deep_view()));
        }
        let ghost vd = v.deep_view();
        let ghost subs0 = subs@;
        let ghost keys0 = keys@;
        subs.insert(j, v);
        keys.insert(j, key);
        proof {
            let ns = Seq::new(subs@.len(), |k: int| subs@[k].deep_view());
            assert(ns =~= sorted.take(j as int).push(vd) + sorted.skip(j as int));
            assert forall|k: int| 0 <= k < keys@.len() implies (keys@[k].0 as int, keys@[k].1 as int) == #[trigger] subset_key(cs, subs@[k].deep_view()) by {
                if k < j {
                } else if k > j {
                    assert(subs@[k] == subs0[k - 1]);
                    assert(keys@[k] == keys0[k - 1]);
                }
            }
        }
        mask = mask + 1;
    }
    proof {
        assert(all.take(mask - 1) =~= all);
    }
    subs
}

/// The ids of `a` that are not in `drop`, in order.
pub open spec fn without(a: Seq<Seq<char>>, drop: Seq<Seq<char>>) -> Seq<Seq<char>>
    decreases a.len(),
{
    if a.len() == 0 {
        Seq::empty()
    } else if drop.contains(a.last()) {
        without(a.drop_last(), drop)
    } else {
        without(a.drop_last(), drop).push(a.last())
    }
}

/// The ids of `a` that are not in `drop`, in order.
pub fn without_exec(a: &Vec<String>, drop: &Vec<String>) -> (r: Vec<String>)
    ensures
        r.deep_view() == without(a.deep_view(), drop.deep_view()),
{
    let mut r: Vec<String> = Vec::new();
    let mut i: usize = 0;
    proof {
        assert(a.deep_view().take(0) =~= Seq::<Seq<char>>::empty());
    }
    while i < a.len()
        invariant
            i <= a.len(),
            r.deep_view() == without(a.deep_view().take(i as int), drop.deep_view()),
        decreases a.len() - i,
    {
        proof {
            assert(a.deep_view().take(i + 1).drop_last() =~= a.deep_view().take(i as int));
        }
        if !contains_str(drop, a[i].as_str()) {
            let ghost pre = r.deep_view();
            r.push(copy_string(&a[i]));
            proof {
                assert(r.deep_view() =~= pre.push(a.deep_view()[i as int]));
            }
        }
        i = i + 1;
    }
    proof {
        assert(a.deep_view().take(i as int) =~= a.deep_view());
    }
    r
}

/// Where the analysis stands.
pub enum Phase {
    CheckAll,
    Shrink { cand: Vec<String>, i: usize },
    Repair { subsets: Vec<Vec<String>>, k: usize },
    Done,
}

/// The analysis phase as plain values.
pub enum PhaseView {
    CheckAll,
    Shrink { cand: Seq<Seq<char>>, i: int },
    Repair { subsets: Seq<Seq<Seq<char>>>, k: int },
    Done,
}

/// The analysis state as plain values.
pub struct DriverView {
    pub active: Seq<Seq<char>>,
    pub phase: PhaseView,
    pub status: Seq<char>,
    pub mus: Seq<Seq<char>>,
    pub repair: Seq<Seq<char>>,
    pub repair_weight: int,
}

/// The analysis step machine.
pub struct Driver {
    pub active: Vec<String>,
    pub phase: Phase,
    /// `consistent`, `inconsistent` or `unknown` once decided.
    pub status: String,
    /// The minimal conflict.
    pub mus: Vec<String>,
    /// The claims the repair gives up, and their total entrenchment.
    pub repair: Vec<String>,
    pub repair_weight: i128,
}

pub open spec fn phase_view(p: Phase) -> PhaseView {
    match p {
        Phase::CheckAll => PhaseView::CheckAll,
        Phase::Shrink { cand, i } => PhaseView::Shrink { cand: cand.deep_view(), i: i as int },
        Phase::Repair { subsets, k } => PhaseView::Repair {
            subsets: Seq::new(subsets@.len(), |j: int| subsets@[j].deep_view()),
            k: k as int,
        },
        Phase::Done => PhaseView::Done,
    }
}

impl View for Driver {
    type V = DriverView;

    open spec fn view(&self) -> DriverView {
        DriverView {
            active: self.active.deep_view(),
            phase: phase_view(self.phase),
            status: self.status@,
            mus: self.mus.deep_view(),
            repair: self.repair.deep_view(),
            repair_weight: self.repair_weight as int,
        }
    }
}

/// The shrink is over: `cand` is the minimal conflict, and the repair
/// search starts from its cheapest subset.
pub open spec fn finish_shrink(d: DriverView, cs: Seq<Claim>, cand: Seq<Seq<char>>) -> DriverView {
    DriverView { mus: cand, phase: PhaseView::Repair { subsets: subsets_by_weight(cs, cand), k: 0 }, ..d }
}

/// The candidate conflict the first unsat answer names: its core, or
/// every active claim when the core is empty.
pub open spec fn first_candidate(d: DriverView, out: Seq<char>) -> Seq<Seq<char>> {
    if core_ids(out).len() == 0 {
        d.active
    } else {
        core_ids(out)
    }
}

/// The reply starts with `sat` or `unsat`. Anything else (`unknown`, an
/// error, nothing) leaves the question undecided.
pub open spec fn decided(h: Seq<char>) -> bool {
    starts_with(h, "sat"@) || starts_with(h, "unsat"@)
}

/// The analysis state after the solver answered `out` to the current
/// script. An undecided answer stops the analysis: as `unknown` before
/// the conflict is settled, and with the repair left open (none chosen)
/// during the repair search, where the inconsistency is already settled.
/// It is never read as a verdict.
pub open spec fn analysis_step(d: DriverView, cs: Seq<Claim>, out: Seq<char>) -> DriverView {
    let h = first_nonblank_line(out);
    if d.phase != PhaseView::Done && !decided(h) {
        if d.phase is Repair {
            DriverView { phase: PhaseView::Done, ..d }
        } else {
            DriverView { status: "unknown"@, phase: PhaseView::Done, ..d }
        }
    } else {
        match d.phase {
            PhaseView::CheckAll => if starts_with(h, "sat"@) {
                DriverView { status: "consistent"@, phase: PhaseView::Done, ..d }
            } else {
                let cand = first_candidate(d, out);
                if cand.len() <= 1 {
                    finish_shrink(DriverView { status: "inconsistent"@, ..d }, cs, cand)
                } else {
                    DriverView { status: "inconsistent"@, phase: PhaseView::Shrink { cand, i: 0 }, ..d }
                }
            },
            PhaseView::Shrink { cand, i } => if starts_with(h, "unsat"@) {
                let c2 = cand.remove(i);
                if i >= c2.len() {
                    finish_shrink(d, cs, c2)
                } else {
                    DriverView { phase: PhaseView::Shrink { cand: c2, i }, ..d }
                }
            } else if i + 1 >= cand.len() {
                finish_shrink(d, cs, cand)
            } else {
                DriverView { phase: PhaseView::Shrink { cand, i: i + 1 }, ..d }
            },
            PhaseView::Repair { subsets, k } => if starts_with(h, "sat"@) {
                DriverView {
                    repair: subsets[k],
                    repair_weight: total_weight(cs, subsets[k]),
                    phase: PhaseView::Done,
                    ..d
                }
            } else if k + 1 < subsets.len() {
                DriverView { phase: PhaseView::Repair { subsets, k: k + 1 }, ..d }
            } else {
                DriverView {
                    repair: d.mus,
                    repair_weight: total_weight(cs, d.mus),
                    phase: PhaseView::Done,
                    ..d
                }
            },
            PhaseView::Done => d,
        }
    }
}

/// The state is one the machine can step from: a shrink position is in
/// range; a repair position is in range and the conflict small enough to
/// enumerate the subsets of.
pub open spec fn driver_wf(d: DriverView) -> bool {
    match d.phase {
        PhaseView::Shrink { cand, i } => 0 <= i < cand.len(),
        PhaseView::Repair { subsets, k } => 0 <= k < subsets.len() && d.mus.len() < 32 && forall|j: int|
            0 <= j < subsets.len() ==> #[trigger] subsets[j].len() < 32,
        _ => true,
    }
}

/// The answer leads to a state the machine can step from: the minimal
/// conflict it settles on is not empty and has fewer than 32 claims (its
/// subsets are enumerated by a 32-bit mask).
pub open spec fn analysis_answer_ok(d: DriverView, out: Seq<char>) -> bool {
    let h = first_nonblank_line(out);
    match d.phase {
        PhaseView::CheckAll => starts_with(h, "unsat"@) ==> first_candidate(d, out).len() >= 1,
        PhaseView::Shrink { cand, i } => {
            &&& (starts_with(h, "unsat"@) && i + 1 >= cand.len() ==> 1 <= cand.len() - 1 < 32)
            &&& (starts_with(h, "sat"@) && i + 1 >= cand.len() ==> cand.len() < 32)
        },
        _ => true,
    }
}

/// A measure that every step from an unfinished state decreases.
pub open spec fn analysis_measure(d: DriverView) -> int {
    match d.phase {
        PhaseView::CheckAll => 3 * 0x1_0000_0000_0000_0000_0000int,
        PhaseView::Shrink { cand, i } => 2 * 0x1_0000_0000_0000_0000_0000int + 2 * cand.len() - i,
        PhaseView::Repair { subsets, k } => 0x1_0000_0000_0000_0000_0000int + subsets.len() - k,
        PhaseView::Done => 0,
    }
}

/// The script the analysis wants answered next, if any.
pub open spec fn analysis_script(d: DriverView, core: Core) -> Option<Seq<char>> {
    match d.phase {
        PhaseView::CheckAll => Some(assume_script(core, d.active)),
        PhaseView::Shrink { cand, i } => Some(assume_script(core, cand.remove(i))),
        PhaseView::Repair { subsets, k } => Some(assume_script(core, without(d.active, subsets[k]))),
        PhaseView::Done => None,
    }
}

pub proof fn lemma_subsets_nonempty(cs: Seq<Claim>, ids: Seq<Seq<char>>)
    requires
        1 <= ids.len() < 32,
    ensures
        subsets_by_weight(cs, ids).len() >= 1,
        subsets_by_weight(cs, ids).len() < 0x1_0000_0000,
{
    let n = ids.len() as u32;
    assert(1u32 << n >= 2u32) by (bit_vector)
        requires
            1 <= n < 32,
    ;
    lemma_stable_sort_len(cs, subsets_by_mask(ids));
}

pub proof fn lemma_stable_sort_len(cs: Seq<Claim>, s: Seq<Seq<Seq<char>>>)
    ensures
        stable_sort(cs, s).len() == s.len(),
    decreases s.len(),
{
    if s.len() > 0 {
        lemma_stable_sort_len(cs, s.drop_last());
        lemma_insert_stable_len(cs, stable_sort(cs, s.drop_last()), s.last());
    }
}

pub proof fn lemma_insert_stable_len(cs: Seq<Claim>, s: Seq<Seq<Seq<char>>>, x: Seq<Seq<char>>)
    ensures
        insert_stable(cs, s, x).len() == s.len() + 1,
    decreases s.len(),
{
    if s.len() > 0 {
        lemma_insert_stable_len(cs, s.drop_last(), x);
    }
}

fn remove_at(v: &Vec<String>, i: usize) -> (r: Vec<String>)
    requires
        i < v@.len(),
    ensures
        r.deep_view() == v.deep_view().remove(i as int),
{
    let mut c = copy_strings(v);
    assert(c.deep_view().len() == c@.len());
    c.remove(i);
    proof {
        assert(c.deep_view() =~= v.deep_view().remove(i as int));
    }
    c
}

impl Driver {
    /// A fresh analysis of the core's active claims.
    pub fn new(core: &Core) -> (r: Driver)
        ensures
            r@.active == active_ids(core.claims@),
            r@.phase == PhaseView::CheckAll,
            r@.status.len() == 0,
            r@.mus.len() == 0,
            r@.repair.len() == 0,
            r@.repair_weight == 0,
            driver_wf(r@),
    {
        let r = Driver {
            active: core.active_ids(),
            phase: Phase::CheckAll,
            status: String::new(),
            mus: Vec::new(),
            repair: Vec::new(),
            repair_weight: 0,
        };
        proof {
            assert(r.mus.deep_view() =~= Seq::<Seq<char>>::empty());
            assert(r.repair.deep_view() =~= Seq::<Seq<char>>::empty());
        }
        r
    }

    /// The analysis has finished.
    pub fn done(&self) -> (r: bool)
        ensures
            r == (self@.phase == PhaseView::Done),
    {
        match self.phase {
            Phase::Done => true,
            _ => false,
        }
    }

    /// The next script to hand the solver, or `None` when finished.
    pub fn next_script(&self, core: &Core) -> (r: Option<String>)
        requires
            core.wf(),
            driver_wf(self@),
        ensures
            match r {
                Some(s) => analysis_script(self@, *core) == Some(s@),
                None => analysis_script(self@, *core) is None,
            },
    {
        match &self.phase {
            Phase::CheckAll => Some(core.smt_assume(&self.active)),
            Phase::Shrink { cand, i } => {
                let c = remove_at(cand, *i);
                Some(core.smt_assume(&c))
            },
            Phase::Repair { subsets, k } => {
                let keep = without_exec(&self.active, &subsets[*k]);
                Some(core.smt_assume(&keep))
            },
            Phase::Done => None,
        }
    }

    /// Whether the machine can take `out` as the answer to its current
    /// script.
    pub fn answer_ok(&self, out: &str) -> (r: bool)
        ensures
            r == analysis_answer_ok(self@, out@),
    {
        let h = z3_head(out);
        match &self.phase {
            Phase::CheckAll => {
                if starts_with_str(&h, "unsat") {
                    let c = z3_core_ids(out);
                    c.len() >= 1 || self.active.len() >= 1
                } else {
                    true
                }
            },
            Phase::Shrink { cand, i } => {
                let n = cand.len();
                let ii = *i as u128;
                let nn = n as u128;
                let a = !(starts_with_str(&h, "unsat") && ii + 1 >= nn) || (2 <= n && n < 33);
                let b = !(starts_with_str(&h, "sat") && ii + 1 >= nn) || n < 32;
                a && b
            },
            _ => true,
        }
    }

    /// Takes the solver's answer to the current script and moves on.
    pub fn feed(&mut self, core: &Core, out: &str)
        requires
            driver_wf(old(self)@),
            analysis_answer_ok(old(self)@, out@),
        ensures
            final(self)@ == analysis_step(old(self)@, core.claims@, out@),
            driver_wf(final(self)@),
            old(self)@.phase != PhaseView::Done ==> analysis_measure(final(self)@) < analysis_measure(
                old(self)@,
            ),
    {
        let ghost d0 = self@;
        let h = z3_head(out);
        let mut ph = Phase::Done;
        std::mem::swap(&mut ph, &mut self.phase);
        proof {
            assert(phase_view(ph) == d0.phase);
        }
        let decided = starts_with_str(&h, "sat") || starts_with_str(&h, "unsat");
        match ph {
            Phase::Done => {
                self.phase = Phase::Done;
            },
            _ => {
                if !decided {
                    let in_repair = match &ph {
                        Phase::Repair { .. } => true,
                        _ => false,
                    };
                    if !in_repair {
                        self.status = String::from_str("unknown");
                    }
                    self.phase = Phase::Done;
                    return;
                }
                match ph {
                    Phase::CheckAll => {
                        if starts_with_str(&h, "sat") {
                            self.status = String::from_str("consistent");
                            self.phase = Phase::Done;
                        } else {
                            self.status = String::from_str("inconsistent");
                            let mut cand = z3_core_ids(out);
                            if cand.len() == 0 {
                                cand = copy_strings(&self.active);
                            }
                            if cand.len() <= 1 {
                                self.finish_shrink(core, cand);
                            } else {
                                self.phase = Phase::Shrink { cand, i: 0 };
                            }
                        }
                    },
                    Phase::Shrink { mut cand, i } => {
                        let cl = cand.len();
                        proof {
                            assert(i < cl);
                        }
                        if starts_with_str(&h, "unsat") {
                            let ghost c0 = cand.deep_view();
                            cand.remove(i);
                            proof {
                                assert(cand.deep_view() =~= c0.remove(i as int));
                            }
                            if i >= cand.len() {
                                self.finish_shrink(core, cand);
                            } else {
                                self.phase = Phase::Shrink { cand, i };
                            }
                        } else {
                            if i + 1 >= cand.len() {
                                self.finish_shrink(core, cand);
                            } else {
                                self.phase = Phase::Shrink { cand, i: i + 1 };
                            }
                        }
                    },
                    Phase::Repair { subsets, k } => {
                        let ghost sv = Seq::new(subsets@.len(), |j: int| subsets@[j].deep_view());
                        let n = subsets.len();
                        proof {
                            assert(k < n);
                        }
                        if starts_with_str(&h, "sat") {
                            let chosen = copy_strings(&subsets[k]);
                            proof {
                                assert(sv[k as int] == chosen.deep_view());
                            }
                            let w = total_weight_of(core, &chosen);
                            self.repair = chosen;
                            self.repair_weight = w;
                            self.phase = Phase::Done;
                        } else if k + 1 < n {
                            self.phase = Phase::Repair { subsets, k: k + 1 };
                        } else {
                            let m = copy_strings(&self.mus);
                            let w = total_weight_of(core, &m);
                            self.repair = m;
                            self.repair_weight = w;
                            self.phase = Phase::Done;
                        }
                    },
                    Phase::Done => {
                        self.phase = Phase::Done;
                    },
                }
            },
        }
    }

    fn finish_shrink(&mut self, core: &Core, cand: Vec<String>)
        requires
            1 <= cand@.len() < 32,
        ensures
            final(self)@ == finish_shrink(old(self)@, core.claims@, cand.deep_view()),
            driver_wf(final(self)@),
            analysis_measure(final(self)@) < 2 * 0x1_0000_0000_0000_0000_0000int,
    {
        let subsets = powerset_by_weight(core, &cand);
        proof {
            lemma_subsets_nonempty(core.claims@, cand.deep_view());
            assert(Seq::new(subsets@.len(), |j: int| subsets@[j].deep_view()) =~= subsets_by_weight(core.claims@, cand.deep_view()));
        }
        self.mus = cand;
        self.phase = Phase::Repair { subsets, k: 0 };
    }
}

/// `s` begins with `p`.
pub fn starts_with_str(s: &String, p: &str) -> (r: bool)
    ensures
        r == starts_with(s@, p@),
{
    let a = crate::text::chars_of(s.as_str());
    let b = crate::text::chars_of(p);
    if a.len() < b.len() {
        return false;
    }
    let mut i: usize = 0;
    while i < b.len()
        invariant
            a@ == s@,
            b@ == p@,
            b.len() <= a.len(),
            i <= b.len(),
            forall|j: int| 0 <= j < i ==> a@[j] == b@[j],
        decreases b.len() - i,
    {
        if a[i] != b[i] {
            proof {
                assert(s@.take(p@.len() as int)[i as int] != p@[i as int]);
            }
            return false;
        }
        i = i + 1;
    }
    assert(s@.take(p@.len() as int) =~= p@);
    true
}

} // verus!
