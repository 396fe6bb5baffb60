//! Reading what the solver printed: the status line, the assumption
//! literals of an unsat core, and a Boolean model of the exploration
//! map.
use vstd::prelude::*;
use crate::text::{is_ws, is_ws_char, chars_of};

verus! {

/// Number of white-space characters `s` starts with.
pub open spec fn lead_ws(s: Seq<char>) -> nat
    decreases s.len(),
{
    if s.len() > 0 && is_ws(s[0]) {
        1 + lead_ws(s.drop_first())
    } else {
        0
    }
}

/// Number of white-space characters `s` ends with.
pub open spec fn trail_ws(s: Seq<char>) -> nat
    decreases s.len(),
{
    if s.len() > 0 && is_ws(s.last()) {
        1 + trail_ws(s.drop_last())
    } else {
        0
    }
}

/// `s` without its leading and trailing white space (`str::trim`).
pub open spec fn trim(s: Seq<char>) -> Seq<char> {
    let t = s.skip(lead_ws(s) as int);
    t.take(t.len() - trail_ws(t))
}

/// Length of the first line of `s` (up to the first newline, or all).
pub open spec fn line_len(s: Seq<char>) -> nat
    decreases s.len(),
{
    if s.len() == 0 || s[0] == '\n' {
        0
    } else {
        1 + line_len(s.drop_first())
    }
}

/// The first line of `s` whose trimmed text is not empty, trimmed; empty
/// when there is none. This is the status a solver answered with.
pub open spec fn first_nonblank_line(s: Seq<char>) -> Seq<char>
    decreases s.len(),
{
    let n = line_len(s);
    let line = s.take(n as int);
    if trim(line).len() > 0 {
        trim(line)
    } else if n < s.len() {
        first_nonblank_line(s.skip(n as int + 1))
    } else {
        Seq::empty()
    }
}

/// The first line of `s` whose trimmed text starts with `(`; empty when
/// there is none.
pub open spec fn first_paren_line(s: Seq<char>) -> Seq<char>
    decreases s.len(),
{
    let n = line_len(s);
    let line = s.take(n as int);
    if trim(line).len() > 0 && trim(line)[0] == '(' {
        line
    } else if n < s.len() {
        first_paren_line(s.skip(n as int + 1))
    } else {
        Seq::empty()
    }
}

/// Number of `(` that `s` starts with.
pub open spec fn lead_open(s: Seq<char>) -> nat
    decreases s.len(),
{
    if s.len() > 0 && s[0] == '(' {
        1 + lead_open(s.drop_first())
    } else {
        0
    }
}

/// Number of `)` that `s` ends with.
pub open spec fn trail_close(s: Seq<char>) -> nat
    decreases s.len(),
{
    if s.len() > 0 && s.last() == ')' {
        1 + trail_close(s.drop_last())
    } else {
        0
    }
}

/// `s` without its leading `(`s and trailing `)`s.
pub open spec fn strip_parens(s: Seq<char>) -> Seq<char> {
    let t = s.skip(lead_open(s) as int);
    t.take(t.len() - trail_close(t))
}

/// Length of the run of non-white-space characters `s` starts with.
pub open spec fn word_len(s: Seq<char>) -> nat
    decreases s.len(),
{
    if s.len() == 0 || is_ws(s[0]) {
        0
    } else {
        1 + word_len(s.drop_first())
    }
}

pub proof fn lemma_word_len_bound(s: Seq<char>)
    ensures
        word_len(s) <= s.len(),
        s.len() > 0 && !is_ws(s[0]) ==> word_len(s) >= 1,
    decreases s.len(),
{
    if s.len() > 0 && !is_ws(s[0]) {
        lemma_word_len_bound(s.drop_first());
    }
}

/// The white-space separated words of `s` (`split_whitespace`).
pub open spec fn words(s: Seq<char>) -> Seq<Seq<char>>
    decreases s.len(),
{
    if s.len() == 0 {
        Seq::empty()
    } else if is_ws(s[0]) {
        words(s.drop_first())
    } else {
        let n = word_len(s);
        proof {
            lemma_word_len_bound(s);
        }
        seq![s.take(n as int)] + words(s.skip(n as int))
    }
}

/// The words that start with `a_`, with that prefix taken off.
pub open spec fn assumption_names(ws: Seq<Seq<char>>) -> Seq<Seq<char>>
    decreases ws.len(),
{
    if ws.len() == 0 {
        Seq::empty()
    } else {
        let w = ws[0];
        let rest = assumption_names(ws.drop_first());
        if w.len() >= 2 && w[0] == 'a' && w[1] == '_' {
            seq![w.skip(2)] + rest
        } else {
            rest
        }
    }
}

/// The claim ids of the unsat core a solver printed: the assumption
/// literals on the first line that starts with `(`.
pub open spec fn core_ids(out: Seq<char>) -> Seq<Seq<char>> {
    assumption_names(words(strip_parens(trim(first_paren_line(out)))))
}

/// `s` with every parenthesis turned into a space.
pub open spec fn unparen(s: Seq<char>) -> Seq<char> {
    s.map_values(|c: char| if c == '(' || c == ')' { ' ' } else { c })
}

pub open spec fn is_digit(c: char) -> bool {
    48 <= (c as int) <= 57
}

/// Decimal value of a digit string.
pub open spec fn decimal_value(s: Seq<char>) -> nat
    decreases s.len(),
{
    if s.len() == 0 {
        0
    } else {
        decimal_value(s.drop_last()) * 10 + ((s.last() as int) - 48) as nat
    }
}

pub open spec fn all_digits(d: Seq<char>) -> bool {
    forall|i: int| 0 <= i < d.len() ==> is_digit(#[trigger] d[i])
}

/// What `str::parse::<usize>` gives: an optional `+`, then one or more
/// ASCII digits whose value fits in a `usize`.
pub open spec fn parse_usize(s: Seq<char>) -> Option<nat> {
    let d = if s.len() > 0 && s[0] == '+' {
        s.drop_first()
    } else {
        s
    };
    if d.len() > 0 && all_digits(d) && decimal_value(d) <= usize::MAX {
        Some(decimal_value(d))
    } else {
        None
    }
}

/// The selector a word names: `m<k>` with `k` a `usize` below `n`.
pub open spec fn selector_of(w: Seq<char>, n: nat) -> Option<nat> {
    if w.len() >= 1 && w[0] == 'm' {
        match parse_usize(w.drop_first()) {
            Some(k) => if k < n {
                Some(k)
            } else {
                None
            },
            None => None,
        }
    } else {
        None
    }
}

/// The model after reading the first `k` word pairs: a selector word
/// followed by `true` sets that bit, followed by anything else clears
/// it; later pairs win.
pub open spec fn model_upto(ws: Seq<Seq<char>>, n: nat, k: int) -> Seq<bool>
    decreases k,
{
    if k <= 0 {
        Seq::new(n, |i: int| false)
    } else {
        let v = model_upto(ws, n, k - 1);
        match selector_of(ws[k - 1], n) {
            Some(idx) => v.update(idx as int, ws[k] == "true"@),
            None => v,
        }
    }
}

/// The Boolean model of `m0 .. m(n-1)` in a `get-value` answer.
pub open spec fn bool_model(out: Seq<char>, n: nat) -> Seq<bool> {
    let ws = words(unparen(out));
    model_upto(ws, n, if ws.len() >= 1 { ws.len() - 1 } else { 0 })
}

proof fn lemma_decimal_prefix(s: Seq<char>, k: int)
    requires
        0 <= k <= s.len(),
    ensures
        decimal_value(s.take(k)) <= decimal_value(s),
    decreases s.len() - k,
{
    if k < s.len() {
        lemma_decimal_prefix(s, k + 1);
        assert(s.take(k + 1).drop_last() =~= s.take(k));
    } else {
        assert(s.take(k) =~= s);
    }
}

/// The value of an ASCII digit.
fn digit_of(c: char) -> (r: Option<usize>)
    ensures
        match r {
            Some(x) => is_digit(c) && x == (c as int) - 48 && x <= 9,
            None => !is_digit(c),
        },
{
    if c == '0' {
        Some(0)
    } else if c == '1' {
        Some(1)
    } else if c == '2' {
        Some(2)
    } else if c == '3' {
        Some(3)
    } else if c == '4' {
        Some(4)
    } else if c == '5' {
        Some(5)
    } else if c == '6' {
        Some(6)
    } else if c == '7' {
        Some(7)
    } else if c == '8' {
        Some(8)
    } else if c == '9' {
        Some(9)
    } else {
        None
    }
}

pub proof fn lemma_model_len(ws: Seq<Seq<char>>, n: nat, k: int)
    ensures
        model_upto(ws, n, k).len() == n,
    decreases k,
{
    if k > 0 {
        lemma_model_len(ws, n, k - 1);
    }
}

/// `str::parse::<usize>` on `v[a..b]`.
fn parse_usize_at(v: &Vec<char>, a: usize, b: usize) -> (r: Option<usize>)
    requires
        a <= b <= v@.len(),
    ensures
        match r {
            Some(x) => parse_usize(v@.subrange(a as int, b as int)) == Some(x as nat),
            None => parse_usize(v@.subrange(a as int, b as int)) is None,
        },
{
    let ghost s = v@.subrange(a as int, b as int);
    let mut i = a;
    if i < b && v[i] == '+' {
        i = i + 1;
    }
    let ghost d = v@.subrange(i as int, b as int);
    proof {
        if a < b && v@[a as int] == '+' {
            assert(s[0] == '+');
            assert(s.drop_first() =~= d);
        } else {
            if a < b {
                assert(s[0] == v@[a as int]);
            }
            assert(s =~= d);
        }
    }
    if i == b {
        return None;
    }
    let mut val: usize = 0;
    let mut j = i;
    proof {
        assert(d.take(0) =~= Seq::<char>::empty());
        let dd = if s.len() > 0 && s[0] == '+' {
            s.drop_first()
        } else {
            s
        };
        assert(dd == d);
    }
    while j < b
        invariant
            i <= j <= b,
            b <= v@.len(),
            d == v@.subrange(i as int, b as int),
            d.len() > 0,
            parse_usize(v@.subrange(a as int, b as int)) == if all_digits(d) && decimal_value(d) <= usize::MAX {
                Some(decimal_value(d))
            } else {
                None
            },
            forall|k: int| 0 <= k < j - i ==> is_digit(#[trigger] d[k]),
            val == decimal_value(d.take(j - i)),
        decreases b - j,
    {
        let c = v[j];
        proof {
            assert(d[j - i] == c);
        }
        let dig = match digit_of(c) {
            Some(x) => x,
            None => {
                proof {
                    assert(!is_digit(d[j - i]));
                    assert(!all_digits(d));
                }
                return None;
            },
        };
        proof {
            assert(d.take(j - i + 1).drop_last() =~= d.take(j - i));
            assert(d.take(j - i + 1).last() == c);
            assert(decimal_value(d.take(j - i + 1)) == val * 10 + dig);
        }
        if val > (usize::MAX - dig) / 10 {
            proof {
                lemma_decimal_prefix(d, j - i + 1);
                let m = usize::MAX as int;
                let q = (m - dig) / 10;
                assert(val >= q + 1);
                assert(val * 10 >= q * 10 + 10) by (nonlinear_arith)
                    requires val >= q + 1;
                assert(q * 10 + 10 > m - dig);
                assert(decimal_value(d) > usize::MAX);
            }
            return None;
        }
        proof {
            let m = usize::MAX as int;
            let q = (m - dig) / 10;
            assert(val * 10 <= q * 10) by (nonlinear_arith)
                requires val <= q, val >= 0;
            assert(q * 10 <= m - dig);
        }
        val = val * 10 + dig;
        j = j + 1;
    }
    proof {
        assert(d.take(j - i) =~= d);
    }
    Some(val)
}

/// The Boolean model of `m0 .. m(n-1)` a solver printed for the
/// exploration map: parentheses are ignored, and each `m<k>` word
/// followed by `true` marks bit `k` (by anything else, clears it).
pub fn parse_bool_model(out: &str, n: usize) -> (r: Vec<bool>)
    ensures
        r@ == bool_model(out@, n as nat),
{
    let raw = chars_of(out);
    let mut cv: Vec<char> = Vec::new();
    let mut i: usize = 0;
    while i < raw.len()
        invariant
            i <= raw.len(),
            raw@ == out@,
            cv@ == unparen(out@).take(i as int),
        decreases raw.len() - i,
    {
        let c = raw[i];
        if c == '(' || c == ')' {
            cv.push(' ');
        } else {
            cv.push(c);
        }
        proof {
            assert(cv@ =~= unparen(out@).take(i + 1));
        }
        i = i + 1;
    }
    proof {
        assert(cv@ =~= unparen(out@));
        assert(cv@.subrange(0, cv@.len() as int) =~= cv@);
    }
    let ws = words_in(&cv, 0, cv.len());
    let ghost wsv = ws.deep_view();
    let mut v: Vec<bool> = Vec::new();
    let mut k: usize = 0;
    while k < n
        invariant
            k <= n,
            v@ == Seq::new(k as nat, |i: int| false),
        decreases n - k,
    {
        v.push(false);
        proof {
            assert(v@ =~= Seq::new((k + 1) as nat, |i: int| false));
        }
        k = k + 1;
    }
    let mut t: usize = 0;
    proof {
        assert(v@ =~= model_upto(wsv, n as nat, 0));
    }
    while t + 1 < ws.len()
        invariant
            t + 1 <= ws.len() || t == 0,
            wsv == ws.deep_view(),
            v@ == model_upto(wsv, n as nat, t as int),
            v@.len() == n,
        decreases ws.len() - t,
    {
        let w = chars_of(ws[t].as_str());
        let mut sel: Option<usize> = None;
        if w.len() >= 1 && w[0] == 'm' {
            match parse_usize_at(&w, 1, w.len()) {
                Some(idx) => {
                    if idx < n {
                        sel = Some(idx);
                    }
                },
                None => {},
            }
        }
        proof {
            if w@.len() >= 1 {
                assert(w@.subrange(1, w@.len() as int) =~= wsv[t as int].drop_first());
            }
        }
        match sel {
            Some(idx) => {
                let is_true = crate::text::str_eq(ws[t + 1].as_str(), "true");
                v.set(idx, is_true);
            },
            None => {},
        }
        t = t + 1;
        proof {
            lemma_model_len(wsv, n as nat, t as int);
        }
    }
    proof {
        if ws.len() == 0 {
            assert(t == 0);
        }
    }
    v
}

// ---- exec ----------------------------------------------------------------

fn string_of(v: &Vec<char>, a: usize, b: usize) -> (r: String)
    requires
        a <= b <= v@.len(),
    ensures
        r@ == v@.subrange(a as int, b as int),
{
    let mut s = String::new();
    let mut i = a;
    while i < b
        invariant
            a <= i <= b,
            b <= v@.len(),
            s@ == v@.subrange(a as int, i as int),
        decreases b - i,
    {
        s.push(v[i]);
        proof {
            assert(s@ =~= v@.subrange(a as int, i + 1));
        }
        i = i + 1;
    }
    s
}

proof fn lemma_lead_ws_step(v: Seq<char>, i: int, b: int)
    requires
        0 <= i < b <= v.len(),
        is_ws(v[i]),
    ensures
        lead_ws(v.subrange(i, b)) == 1 + lead_ws(v.subrange(i + 1, b)),
{
    assert(v.subrange(i, b).drop_first() =~= v.subrange(i + 1, b));
}

proof fn lemma_trail_ws_step(v: Seq<char>, a: int, j: int)
    requires
        0 <= a < j <= v.len(),
        is_ws(v[j - 1]),
    ensures
        trail_ws(v.subrange(a, j)) == 1 + trail_ws(v.subrange(a, j - 1)),
{
    assert(v.subrange(a, j).drop_last() =~= v.subrange(a, j - 1));
}

/// Bounds of the trimmed text of `v[a..b]`.
fn trim_bounds(v: &Vec<char>, a: usize, b: usize) -> (r: (usize, usize))
    requires
        a <= b <= v@.len(),
    ensures
        a <= r.0 <= r.1 <= b,
        v@.subrange(r.0 as int, r.1 as int) == trim(v@.subrange(a as int, b as int)),
{
    let mut i = a;
    while i < b && is_ws_char(v[i])
        invariant
            a <= i <= b,
            b <= v@.len(),
            lead_ws(v@.subrange(a as int, b as int)) == (i - a) + lead_ws(v@.subrange(i as int, b as int)),
        decreases b - i,
    {
        proof {
            lemma_lead_ws_step(v@, i as int, b as int);
        }
        i = i + 1;
    }
    let ghost x = i;
    proof {
        if i < b {
            assert(v@.subrange(i as int, b as int)[0] == v@[i as int]);
        }
        assert(lead_ws(v@.subrange(i as int, b as int)) == 0);
        assert(v@.subrange(a as int, b as int).skip(i - a) =~= v@.subrange(i as int, b as int));
    }
    let mut j = b;
    while j > i && is_ws_char(v[j - 1])
        invariant
            a <= i <= j <= b,
            b <= v@.len(),
            trail_ws(v@.subrange(i as int, b as int)) == (b - j) + trail_ws(v@.subrange(i as int, j as int)),
        decreases j - i,
    {
        proof {
            lemma_trail_ws_step(v@, i as int, j as int);
        }
        j = j - 1;
    }
    proof {
        if j > i {
            assert(v@.subrange(i as int, j as int).last() == v@[j - 1]);
        }
        assert(trail_ws(v@.subrange(i as int, j as int)) == 0);
        let t = v@.subrange(i as int, b as int);
        assert(t.take(t.len() - trail_ws(t)) =~= v@.subrange(i as int, j as int));
    }
    (i, j)
}

/// End of the line that starts at `from`.
fn line_end(v: &Vec<char>, from: usize) -> (r: usize)
    requires
        from <= v@.len(),
    ensures
        from <= r <= v@.len(),
        r - from == line_len(v@.skip(from as int)),
{
    let mut i = from;
    while i < v.len() && v[i] != '\n'
        invariant
            from <= i <= v@.len(),
            line_len(v@.skip(from as int)) == (i - from) + line_len(v@.skip(i as int)),
        decreases v.len() - i,
    {
        proof {
            assert(v@.skip(i as int).drop_first() =~= v@.skip(i + 1));
        }
        i = i + 1;
    }
    proof {
        if i < v.len() {
            assert(v@.skip(i as int)[0] == v@[i as int]);
        }
    }
    i
}

/// The solver's status: the first non-blank line of its output,
/// trimmed (`sat`, `unsat`, `unknown`, an error...), or empty.
pub fn z3_head(o: &str) -> (r: String)
    ensures
        r@ == first_nonblank_line(o@),
{
    let v = chars_of(o);
    let mut pos: usize = 0;
    proof {
        assert(v@.skip(0) =~= v@);
    }
    loop
        invariant
            v@ == o@,
            pos <= v@.len(),
            first_nonblank_line(o@) == first_nonblank_line(v@.skip(pos as int)),
        decreases v@.len() - pos,
    {
        let e = line_end(&v, pos);
        let (a, b) = trim_bounds(&v, pos, e);
        proof {
            let s = v@.skip(pos as int);
            assert(s.take((e - pos) as int) =~= v@.subrange(pos as int, e as int));
            if e < v@.len() {
                assert(s.skip((e - pos) + 1) =~= v@.skip(e + 1));
            }
        }
        if a < b {
            return string_of(&v, a, b);
        }
        if e == v.len() {
            return String::new();
        }
        pos = e + 1;
    }
}

/// The ids of the unsat core the solver printed: the words of the first
/// line that starts with `(`, parentheses stripped, that begin with
/// `a_`, with that prefix removed.
pub fn z3_core_ids(o: &str) -> (r: Vec<String>)
    ensures
        r.deep_view() == core_ids(o@),
{
    let v = chars_of(o);
    // find the first line whose trimmed text starts with '('
    let mut pos: usize = 0;
    let mut start: usize = 0;
    let mut stop: usize = 0;
    proof {
        assert(v@.skip(0) =~= v@);
    }
    loop
        invariant
            v@ == o@,
            pos <= v@.len(),
            first_paren_line(o@) == first_paren_line(v@.skip(pos as int)),
        ensures
            start <= stop <= v@.len(),
            v@.subrange(start as int, stop as int) == first_paren_line(o@),
        decreases v@.len() - pos,
    {
        let e = line_end(&v, pos);
        let (a, b) = trim_bounds(&v, pos, e);
        proof {
            let s = v@.skip(pos as int);
            assert(s.take((e - pos) as int) =~= v@.subrange(pos as int, e as int));
            if e < v@.len() {
                assert(s.skip((e - pos) + 1) =~= v@.skip(e + 1));
            }
            if a < b {
                assert(v@.subrange(a as int, b as int)[0] == v@[a as int]);
            }
        }
        if a < b && v[a] == '(' {
            start = pos;
            stop = e;
            break;
        }
        if e == v.len() {
            start = 0;
            stop = 0;
            proof {
                assert(v@.subrange(0, 0) =~= Seq::<char>::empty());
            }
            break;
        }
        pos = e + 1;
    }
    ids_on_line(&v, start, stop, o)
}

fn ids_on_line(v: &Vec<char>, start: usize, stop: usize, o: &str) -> (r: Vec<String>)
    requires
        start <= stop <= v@.len(),
        v@ == o@,
        v@.subrange(start as int, stop as int) == first_paren_line(o@),
    ensures
        r.deep_view() == core_ids(o@),
{
    let (a, b) = trim_bounds(v, start, stop);
    // strip leading '(' and trailing ')'
    let mut i = a;
    while i < b && v[i] == '('
        invariant
            a <= i <= b,
            b <= v@.len(),
            lead_open(v@.subrange(a as int, b as int)) == (i - a) + lead_open(v@.subrange(i as int, b as int)),
        decreases b - i,
    {
        proof {
            assert(v@.subrange(i as int, b as int).drop_first() =~= v@.subrange(i + 1, b as int));
        }
        i = i + 1;
    }
    proof {
        if i < b {
            assert(v@.subrange(i as int, b as int)[0] == v@[i as int]);
        }
        assert(v@.subrange(a as int, b as int).skip(i - a) =~= v@.subrange(i as int, b as int));
    }
    let mut j = b;
    while j > i && v[j - 1] == ')'
        invariant
            a <= i <= j <= b,
            b <= v@.len(),
            trail_close(v@.subrange(i as int, b as int)) == (b - j) + trail_close(v@.subrange(i as int, j as int)),
        decreases j - i,
    {
        proof {
            assert(v@.subrange(i as int, j as int).drop_last() =~= v@.subrange(i as int, j - 1));
        }
        j = j - 1;
    }
    proof {
        if j > i {
            assert(v@.subrange(i as int, j as int).last() == v@[j - 1]);
        }
        let t = v@.subrange(i as int, b as int);
        assert(t.take(t.len() - trail_close(t)) =~= v@.subrange(i as int, j as int));
    }
    let ws = words_in(v, i, j);
    let mut out: Vec<String> = Vec::new();
    let mut m: usize = 0;
    proof {
        assert(ws.deep_view().take(0) =~= Seq::<Seq<char>>::empty());
    }
    while m < ws.len()
        invariant
            m <= ws.len(),
            out.deep_view() == assumption_names(ws.deep_view()).take(0) + prefix_names(ws.deep_view(), m as int),
        decreases ws.len() - m,
    {
        let w = &ws[m];
        let wv = chars_of(w.as_str());
        proof {
            lemma_prefix_names_step(ws.deep_view(), m as int);
        }
        if wv.len() >= 2 && wv[0] == 'a' && wv[1] == '_' {
            let name = string_of(&wv, 2, wv.len());
            let ghost pre = out.deep_view();
            out.push(name);
            proof {
                assert(wv@.subrange(2, wv@.len() as int) =~= w@.skip(2));
                assert(out.deep_view() =~= pre.push(w@.skip(2)));
            }
        }
        m = m + 1;
    }
    proof {
        lemma_prefix_names_full(ws.deep_view());
        assert(assumption_names(ws.deep_view()).take(0) =~= Seq::<Seq<char>>::empty());
        assert(out.deep_view() =~= prefix_names(ws.deep_view(), ws.len() as int));
    }
    out
}

/// The `a_` names among the first `m` words.
spec fn prefix_names(ws: Seq<Seq<char>>, m: int) -> Seq<Seq<char>>
    decreases m,
{
    if m <= 0 {
        Seq::empty()
    } else {
        let rest = prefix_names(ws, m - 1);
        let w = ws[m - 1];
        if w.len() >= 2 && w[0] == 'a' && w[1] == '_' {
            rest.push(w.skip(2))
        } else {
            rest
        }
    }
}

proof fn lemma_prefix_names_step(ws: Seq<Seq<char>>, m: int)
    requires
        0 <= m < ws.len(),
    ensures
        prefix_names(ws, m + 1) == {
            let w = ws[m];
            if w.len() >= 2 && w[0] == 'a' && w[1] == '_' {
                prefix_names(ws, m).push(w.skip(2))
            } else {
                prefix_names(ws, m)
            }
        },
{
}

proof fn lemma_prefix_names_full(ws: Seq<Seq<char>>)
    ensures
        prefix_names(ws, ws.len() as int) == assumption_names(ws),
    decreases ws.len(),
{
    if ws.len() > 0 {
        lemma_prefix_names_full(ws.drop_first());
        lemma_prefix_names_shift(ws, ws.len() as int);
    }
}

/// Dropping the first word shifts the prefix count by one.
proof fn lemma_prefix_names_shift(ws: Seq<Seq<char>>, m: int)
    requires
        1 <= m <= ws.len(),
    ensures
        prefix_names(ws, m) == {
            let w = ws[0];
            let head: Seq<Seq<char>> = if w.len() >= 2 && w[0] == 'a' && w[1] == '_' {
                seq![w.skip(2)]
            } else {
                Seq::empty()
            };
            head + prefix_names(ws.drop_first(), m - 1)
        },
    decreases m,
{
    if m > 1 {
        lemma_prefix_names_shift(ws, m - 1);
        let w = ws[0];
        let head: Seq<Seq<char>> = if w.len() >= 2 && w[0] == 'a' && w[1] == '_' {
            seq![w.skip(2)]
        } else {
            Seq::empty()
        };
        let x = ws[m - 1];
        assert(ws.drop_first()[m - 2] == x);
        if x.len() >= 2 && x[0] == 'a' && x[1] == '_' {
            assert((head + prefix_names(ws.drop_first(), m - 2)).push(x.skip(2)) =~= head
                + prefix_names(ws.drop_first(), m - 2).push(x.skip(2)));
        }
    } else {
        assert(prefix_names(ws.drop_first(), 0) =~= Seq::<Seq<char>>::empty());
        let w = ws[0];
        if w.len() >= 2 && w[0] == 'a' && w[1] == '_' {
            assert(prefix_names(ws, 0).push(w.skip(2)) =~= seq![w.skip(2)] + Seq::<Seq<char>>::empty());
        } else {
            assert(prefix_names(ws, 0) =~= Seq::<Seq<char>>::empty() + Seq::<Seq<char>>::empty());
        }
    }
}

/// The white-space separated words of `v[a..b]`.
pub fn words_in(v: &Vec<char>, a: usize, b: usize) -> (r: Vec<String>)
    requires
        a <= b <= v@.len(),
    ensures
        r.deep_view() == words(v@.subrange(a as int, b as int)),
{
    let mut r: Vec<String> = Vec::new();
    let mut i = a;
    proof {
        assert(r.deep_view() + words(v@.subrange(a as int, b as int)) =~= words(v@.subrange(a as int, b as int)));
    }
    while i < b
        invariant
            a <= i <= b,
            b <= v@.len(),
            r.deep_view() + words(v@.subrange(i as int, b as int)) == words(v@.subrange(a as int, b as int)),
        decreases b - i,
    {
        if is_ws_char(v[i]) {
            proof {
                assert(v@.subrange(i as int, b as int).drop_first() =~= v@.subrange(i + 1, b as int));
            }
            i = i + 1;
        } else {
            let mut j = i;
            while j < b && !is_ws_char(v[j])
                invariant
                    i <= j <= b,
                    b <= v@.len(),
                    word_len(v@.subrange(i as int, b as int)) == (j - i) + word_len(v@.subrange(j as int, b as int)),
                decreases b - j,
            {
                proof {
                    assert(v@.subrange(j as int, b as int).drop_first() =~= v@.subrange(j + 1, b as int));
                }
                j = j + 1;
            }
            proof {
                if j < b {
                    assert(v@.subrange(j as int, b as int)[0] == v@[j as int]);
                }
                let s = v@.subrange(i as int, b as int);
                assert(s.take((j - i) as int) =~= v@.subrange(i as int, j as int));
                assert(s.skip((j - i) as int) =~= v@.subrange(j as int, b as int));
            }
            let w = string_of(v, i, j);
            let ghost pre = r.deep_view();
            r.push(w);
            proof {
                assert(r.deep_view() =~= pre.push(w@));
                assert(pre.push(w@) + words(v@.subrange(j as int, b as int)) =~= pre + (seq![w@] + words(
                    v@.subrange(j as int, b as int),
                )));
            }
            i = j;
        }
    }
    proof {
        assert(v@.subrange(b as int, b as int) =~= Seq::<char>::empty());
        assert(r.deep_view() + Seq::<Seq<char>>::empty() =~= r.deep_view());
    }
    r
}

} // verus!
