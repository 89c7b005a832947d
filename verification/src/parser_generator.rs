//! The LL(1) analyzer and the parser emitter.
//!
//! The analysis works over an interned grammar: terminals and nonterminals
//! are numbered, and a terminal set is a row of booleans indexed by
//! terminal number, with two extra columns for the end-of-input marker and
//! for the empty word.
use vstd::prelude::*;
use vstd::string::StrSliceExecFns;
use vstd::string::StringExecFns;

use crate::parser_description::NotTerminal;
use crate::parser_description::ParserDescription;
use crate::parser_description::Rule;
use crate::parser_description::RuleMember;
use crate::parser_description::RuleToken;
use crate::parser_description::Typed;
use crate::text::dec_digits;
use crate::text::push_decimal;

verus! {

/// A grammar symbol: a terminal or a nonterminal, by number.
#[derive(Copy, Clone)]
pub enum Sym {
    T(usize),
    N(usize),
}

/// The analysis view of a grammar: terminal and nonterminal names in
/// declaration order, and for each nonterminal its alternatives with the
/// `Command` members dropped.
pub struct Grammar {
    pub terminals: Vec<String>,
    pub nts: Vec<String>,
    pub rules: Vec<Vec<Vec<Sym>>>,
}

/// Columns of a terminal-set row: one per terminal, then the end-of-input
/// marker, then the empty word.
pub open spec fn width(g: Grammar) -> int {
    g.terminals@.len() as int + 2
}

pub open spec fn eof_i(g: Grammar) -> int {
    g.terminals@.len() as int
}

pub open spec fn eps_i(g: Grammar) -> int {
    g.terminals@.len() as int + 1
}

pub open spec fn sym_ok(g: Grammar, s: Sym) -> bool {
    match s {
        Sym::T(i) => i < g.terminals@.len(),
        Sym::N(j) => j < g.rules@.len(),
    }
}

pub open spec fn g_wf(g: Grammar) -> bool {
    &&& g.rules@.len() == g.nts@.len()
    &&& forall|a: int, r: int, i: int|
        0 <= a < g.rules@.len() && 0 <= r < g.rules@[a]@.len() && 0 <= i
            < g.rules@[a]@[r]@.len() ==> sym_ok(g, #[trigger] g.rules@[a]@[r]@[i])
}

pub open spec fn fam_view(f: Seq<Vec<bool>>) -> Seq<Seq<bool>> {
    f.map_values(|r: Vec<bool>| r@)
}

/// A family of terminal-set rows, one per nonterminal.
pub open spec fn fam_wf(g: Grammar, fv: Seq<Seq<bool>>) -> bool {
    &&& fv.len() == g.rules@.len()
    &&& forall|a: int| 0 <= a < fv.len() ==> (#[trigger] fv[a]).len() == width(g)
}

/// Does terminal column `t` belong to FIRST of the suffix of `rule` from
/// `i` on, under the family `fv` of FIRST sets for the nonterminals?
pub open spec fn rf_has(g: Grammar, fv: Seq<Seq<bool>>, rule: Seq<Sym>, i: int, t: int) -> bool
    decreases rule.len() - i,
{
    if !(0 <= i < rule.len()) {
        t == eps_i(g)
    } else {
        match rule[i] {
            Sym::T(k) => t == k,
            Sym::N(j) => {
                if 0 <= j < fv.len() {
                    (t != eps_i(g) && fv[j as int][t]) || (fv[j as int][eps_i(g)] && rf_has(
                        g,
                        fv,
                        rule,
                        i + 1,
                        t,
                    ))
                } else {
                    false
                }
            },
        }
    }
}

/// The family is closed under the FIRST equations: whatever a rule can
/// begin with is recorded for its nonterminal.
pub open spec fn closed_first(g: Grammar, fv: Seq<Seq<bool>>) -> bool {
    forall|a: int, r: int, t: int|
        0 <= a < g.rules@.len() && 0 <= r < g.rules@[a]@.len() && 0 <= t < width(g) && rf_has(
            g,
            fv,
            #[trigger] g.rules@[a]@[r]@,
            0,
            t,
        ) ==> #[trigger] fv[a][t]
}

/// Pointwise inclusion of families.
pub open spec fn sub_fam(f1: Seq<Seq<bool>>, f2: Seq<Seq<bool>>) -> bool {
    f1.len() == f2.len() && forall|a: int, t: int|
        0 <= a < f1.len() && 0 <= t < f1[a].len() && (#[trigger] f1[a][t]) ==> f2[a].len()
            == f1[a].len() && (#[trigger] f2[a][t])
}

/// Membership in a FIRST suffix set only grows when the family grows.
proof fn lemma_rf_mono(
    g: Grammar,
    f1: Seq<Seq<bool>>,
    f2: Seq<Seq<bool>>,
    rule: Seq<Sym>,
    i: int,
    t: int,
)
    requires
        sub_fam(f1, f2),
        fam_wf(g, f1),
        rf_has(g, f1, rule, i, t),
        0 <= t < width(g),
    ensures
        rf_has(g, f2, rule, i, t),
    decreases rule.len() - i,
{
    if 0 <= i < rule.len() {
        match rule[i] {
            Sym::T(k) => {},
            Sym::N(j) => {
                if 0 <= j < f1.len() {
                    if f1[j as int][eps_i(g)] && rf_has(g, f1, rule, i + 1, t) {
                        lemma_rf_mono(g, f1, f2, rule, i + 1, t);
                    }
                }
            },
        }
    }
}

/// How many columns of a row are still clear, from `i` on.
spec fn cf_row(row: Seq<bool>, i: int) -> nat
    decreases row.len() - i,
{
    if 0 <= i < row.len() {
        (if row[i] {
            0nat
        } else {
            1nat
        }) + cf_row(row, i + 1)
    } else {
        0
    }
}

/// How many cells of a family are still clear, from row `a` on.
spec fn cf(fv: Seq<Seq<bool>>, a: int) -> nat
    decreases fv.len() - a,
{
    if 0 <= a < fv.len() {
        cf_row(fv[a], 0) + cf(fv, a + 1)
    } else {
        0
    }
}

proof fn lemma_cf_row_frame(r1: Seq<bool>, r2: Seq<bool>, i: int)
    requires
        r1.len() == r2.len(),
        forall|j: int| i <= j < r1.len() ==> r1[j] == r2[j],
    ensures
        cf_row(r1, i) == cf_row(r2, i),
    decreases r1.len() - i,
{
    if 0 <= i < r1.len() {
        lemma_cf_row_frame(r1, r2, i + 1);
    }
}

/// Setting a clear column strictly lowers the count of clear columns.
proof fn lemma_cf_row_update(row: Seq<bool>, t: int, i: int)
    requires
        0 <= i <= t < row.len(),
        !row[t],
    ensures
        cf_row(row.update(t, true), i) < cf_row(row, i),
    decreases row.len() - i,
{
    if i < t {
        lemma_cf_row_update(row, t, i + 1);
    } else {
        lemma_cf_row_frame(row.update(t, true), row, t + 1);
    }
}

/// Replacing a row by one with strictly fewer clear columns strictly
/// lowers the family's count.
proof fn lemma_cf_update(fv: Seq<Seq<bool>>, a: int, row: Seq<bool>, start: int)
    requires
        0 <= start,
        0 <= a < fv.len(),
        cf_row(row, 0) < cf_row(fv[a], 0),
    ensures
        start <= a ==> cf(fv.update(a, row), start) < cf(fv, start),
        start > a ==> cf(fv.update(a, row), start) == cf(fv, start),
    decreases fv.len() - start,
{
    if start < fv.len() {
        lemma_cf_update(fv, a, row, start + 1);
        if start == a {
            assert(fv.update(a, row)[start] == row);
        } else {
            assert(fv.update(a, row)[start] == fv[start]);
        }
    }
}

/// The FIRST closure condition, restricted to the nonterminals before
/// `a_hi`.
spec fn closed_first_upto(g: Grammar, fv: Seq<Seq<bool>>, a_hi: int) -> bool {
    forall|a: int, r: int, t: int|
        0 <= a < a_hi && 0 <= r < g.rules@[a]@.len() && 0 <= t < width(g) && rf_has(
            g,
            fv,
            #[trigger] g.rules@[a]@[r]@,
            0,
            t,
        ) ==> #[trigger] fv[a][t]
}

/// A row of `width(g)` columns, all clear.
fn empty_row(grammar: &Grammar) -> (r: Vec<bool>)
    ensures
        r@.len() == width(*grammar),
        forall|t: int| 0 <= t < r@.len() ==> !(#[trigger] r@[t]),
{
    let w = grammar.terminals.len();
    let mut v: Vec<bool> = Vec::new();
    let mut i: usize = 0;
    while i < w
        invariant
            i <= w,
            v@.len() == i,
            forall|t: int| 0 <= t < v@.len() ==> !(#[trigger] v@[t]),
        decreases w - i,
    {
        v.push(false);
        i = i + 1;
    }
    v.push(false);
    v.push(false);
    v
}

/// FIRST of the suffix of a rule body from `i` on, as a terminal-set row.
fn get_first_from(
    rule: &Vec<Sym>,
    grammar: &Grammar,
    not_terminal_first: &Vec<Vec<bool>>,
    i: usize,
) -> (r: Vec<bool>)
    requires
        g_wf(*grammar),
        fam_wf(*grammar, fam_view(not_terminal_first@)),
        i <= rule@.len(),
        forall|k: int| 0 <= k < rule@.len() ==> sym_ok(*grammar, #[trigger] rule@[k]),
    ensures
        r@.len() == width(*grammar),
        forall|t: int|
            0 <= t < r@.len() ==> #[trigger] r@[t] == rf_has(
                *grammar,
                fam_view(not_terminal_first@),
                rule@,
                i as int,
                t,
            ),
    decreases rule@.len() - i,
{
    let mut out = empty_row(grammar);
    let wlen = out.len();
    let eps = wlen - 1;
    if i == rule.len() {
        out.set(eps, true);
        return out;
    }
    match rule[i] {
        Sym::T(k) => {
            out.set(k, true);
            out
        },
        Sym::N(j) => {
            proof {
                assert(fam_view(not_terminal_first@)[j as int] == not_terminal_first@[j as int]@);
            }
            let fj = &not_terminal_first[j];
            let mut t: usize = 0;
            while t < wlen
                invariant
                    wlen == out@.len(),
                    wlen == width(*grammar),
                    eps == wlen - 1,
                    t <= wlen,
                    fj@.len() == wlen,
                    fj@ == fam_view(not_terminal_first@)[j as int],
                    0 <= j < not_terminal_first@.len(),
                    forall|u: int| t <= u < wlen ==> !(#[trigger] out@[u]),
                    forall|u: int| 0 <= u < t ==> out@[u] == (u != eps && fj@[u]),
                decreases wlen - t,
            {
                if t != eps && fj[t] {
                    out.set(t, true);
                }
                t = t + 1;
            }
            if fj[eps] {
                let rest = get_first_from(rule, grammar, not_terminal_first, i + 1);
                let mut u: usize = 0;
                while u < wlen
                    invariant
                        wlen == out@.len(),
                        wlen == width(*grammar),
                        eps == wlen - 1,
                        u <= wlen,
                        fj@.len() == wlen,
                        rest@.len() == wlen,
                        fj@ == fam_view(not_terminal_first@)[j as int],
                        0 <= j < not_terminal_first@.len(),
                        fj@[eps as int],
                        forall|t2: int|
                            0 <= t2 < wlen ==> #[trigger] rest@[t2] == rf_has(
                                *grammar,
                                fam_view(not_terminal_first@),
                                rule@,
                                i + 1,
                                t2,
                            ),
                        forall|t2: int| u <= t2 < wlen ==> out@[t2] == (t2 != eps && fj@[t2]),
                        forall|t2: int|
                            0 <= t2 < u ==> out@[t2] == ((t2 != eps && fj@[t2]) || rest@[t2]),
                    decreases wlen - u,
                {
                    if rest[u] {
                        out.set(u, true);
                    }
                    u = u + 1;
                }
                out
            } else {
                out
            }
        },
    }
}

/// FIRST of a whole rule body.
pub fn get_first(rule: &Vec<Sym>, grammar: &Grammar, not_terminal_first: &Vec<Vec<bool>>) -> (r: Vec<
    bool,
>)
    requires
        g_wf(*grammar),
        fam_wf(*grammar, fam_view(not_terminal_first@)),
        forall|k: int| 0 <= k < rule@.len() ==> sym_ok(*grammar, #[trigger] rule@[k]),
    ensures
        r@.len() == width(*grammar),
        forall|t: int|
            0 <= t < r@.len() ==> #[trigger] r@[t] == rf_has(
                *grammar,
                fam_view(not_terminal_first@),
                rule@,
                0,
                t,
            ),
{
    get_first_from(rule, grammar, not_terminal_first, 0)
}

/// The FIRST family: the least family of terminal sets closed under the
/// FIRST equations of the grammar. One pass at a time grows the sets; a
/// pass that grows nothing witnesses closure, and every element ever
/// recorded is forced by the equations, so the result is least.
pub fn generate_first(grammar: &Grammar) -> (r: Vec<Vec<bool>>)
    requires
        g_wf(*grammar),
    ensures
        least_closed_first(*grammar, fam_view(r@)),
{
    let ghost g = *grammar;
    let n = grammar.rules.len();
    let mut fam: Vec<Vec<bool>> = Vec::new();
    let mut a0: usize = 0;
    while a0 < n
        invariant
            a0 <= n,
            fam@.len() == a0,
            forall|a: int| 0 <= a < a0 ==> (#[trigger] fam@[a])@.len() == width(*grammar),
            forall|a: int, t: int|
                0 <= a < a0 && 0 <= t < fam@[a]@.len() ==> !(#[trigger] fam@[a]@[t]),
        decreases n - a0,
    {
        let row = empty_row(grammar);
        fam.push(row);
        a0 = a0 + 1;
    }
    proof {
        assert forall|x: int| 0 <= x < fam@.len() implies (#[trigger] fam_view(fam@)[x]).len()
            == width(g) by {
            assert(fam_view(fam@)[x] == fam@[x]@);
        }
        assert(fam_wf(g, fam_view(fam@)));
        assert forall|gv: Seq<Seq<bool>>|
            fam_wf(g, gv) && closed_first(g, gv) implies #[trigger] sub_fam(
            fam_view(fam@),
            gv,
        ) by {
            assert forall|x: int, t: int|
                0 <= x < fam_view(fam@).len() && 0 <= t < fam_view(fam@)[x].len() && (
                #[trigger] fam_view(fam@)[x][t]) implies gv[x].len() == fam_view(fam@)[x].len()
                && gv[x][t] by {
                assert(fam_view(fam@)[x] == fam@[x]@);
            }
        }
    }
    let mut changed = true;
    while changed
        invariant
            g == *grammar,
            g_wf(g),
            n == g.rules@.len(),
            fam_wf(g, fam_view(fam@)),
            forall|gv: Seq<Seq<bool>>|
                fam_wf(g, gv) && closed_first(g, gv) ==> #[trigger] sub_fam(fam_view(fam@), gv),
            !changed ==> closed_first(g, fam_view(fam@)),
        decreases cf(fam_view(fam@), 0) + (if changed {
            1int
        } else {
            0int
        }),
    {
        changed = false;
        let ghost snap = fam_view(fam@);
        let mut a: usize = 0;
        while a < n
            invariant
                g == *grammar,
                g_wf(g),
                n == g.rules@.len(),
                a <= n,
                fam_wf(g, fam_view(fam@)),
                forall|gv: Seq<Seq<bool>>|
                    fam_wf(g, gv) && closed_first(g, gv) ==> #[trigger] sub_fam(
                        fam_view(fam@),
                        gv,
                    ),
                changed ==> cf(fam_view(fam@), 0) < cf(snap, 0),
                !changed ==> fam_view(fam@) == snap,
                !changed ==> closed_first_upto(g, fam_view(fam@), a as int),
            decreases n - a,
        {
            let ghost fv0 = fam_view(fam@);
            let ghost changed0 = changed;
            let nrules = grammar.rules[a].len();
            let mut row = empty_row(grammar);
            let wlen = row.len();
            proof {
                assert(fam_view(fam@)[a as int] == fam@[a as int]@);
            }
            let mut t0: usize = 0;
            while t0 < wlen
                invariant
                    t0 <= wlen,
                    wlen == row@.len(),
                    wlen == width(g),
                    fam_wf(g, fam_view(fam@)),
                    0 <= a < fam@.len(),
                    fam@[a as int]@.len() == wlen,
                    fv0 == fam_view(fam@),
                    forall|u: int| 0 <= u < t0 ==> row@[u] == fv0[a as int][u],
                    forall|u: int| t0 <= u < wlen ==> !(#[trigger] row@[u]),
                decreases wlen - t0,
            {
                if fam[a][t0] {
                    row.set(t0, true);
                } else {
                    row.set(t0, false);
                }
                t0 = t0 + 1;
            }
            let ghost rowbase = row@;
            proof {
                assert(rowbase =~= fv0[a as int]);
            }
            let mut rowchanged = false;
            let mut r: usize = 0;
            while r < nrules
                invariant
                    g == *grammar,
                    g_wf(g),
                    n == g.rules@.len(),
                    0 <= a < n,
                    nrules == g.rules@[a as int]@.len(),
                    r <= nrules,
                    fam_wf(g, fam_view(fam@)),
                    fv0 == fam_view(fam@),
                    wlen == width(g),
                    row@.len() == wlen,
                    rowbase == fv0[a as int],
                    forall|t: int| 0 <= t < wlen && rowbase[t] ==> #[trigger] row@[t],
                    forall|t: int|
                        0 <= t < wlen && #[trigger] row@[t] ==> rowbase[t] || (exists|r2: int|
                            0 <= r2 < r && #[trigger] rf_has(g, fv0, g.rules@[a as int]@[r2]@, 0, t)),
                    forall|r2: int, t: int|
                        0 <= r2 < r && 0 <= t < wlen && #[trigger] rf_has(
                            g,
                            fv0,
                            g.rules@[a as int]@[r2]@,
                            0,
                            t,
                        ) ==> row@[t],
                    !rowchanged ==> row@ == rowbase,
                    rowchanged ==> cf_row(row@, 0) < cf_row(rowbase, 0),
                    changed == (changed0 || rowchanged),
                    changed0 ==> cf(fv0, 0) < cf(snap, 0),
                    !changed0 ==> fv0 == snap,
                    !changed0 ==> closed_first_upto(g, fv0, a as int),
                decreases nrules - r,
            {
                proof {
                    assert(forall|k: int|
                        0 <= k < g.rules@[a as int]@[r as int]@.len() ==> sym_ok(
                            g,
                            #[trigger] g.rules@[a as int]@[r as int]@[k],
                        ));
                }
                let rf = get_first(&grammar.rules[a][r], grammar, &fam);
                let mut t: usize = 0;
                while t < wlen
                    invariant
                        g == *grammar,
                        t <= wlen,
                        wlen == row@.len(),
                        wlen == rf@.len(),
                        wlen == width(g),
                        0 <= a < n,
                        n == g.rules@.len(),
                        0 <= r < nrules,
                        nrules == g.rules@[a as int]@.len(),
                        fv0 == fam_view(fam@),
                        rowbase == fv0[a as int],
                        rowbase.len() == wlen,
                        forall|u: int|
                            0 <= u < wlen ==> #[trigger] rf@[u] == rf_has(
                                g,
                                fv0,
                                g.rules@[a as int]@[r as int]@,
                                0,
                                u,
                            ),
                        forall|u: int| 0 <= u < wlen && rowbase[u] ==> #[trigger] row@[u],
                        forall|u: int|
                            0 <= u < wlen && #[trigger] row@[u] ==> rowbase[u] || (exists|r2: int|
                                0 <= r2 < r + 1 && #[trigger] rf_has(
                                    g,
                                    fv0,
                                    g.rules@[a as int]@[r2]@,
                                    0,
                                    u,
                                )),
                        forall|r2: int, u: int|
                            0 <= r2 < r && 0 <= u < wlen && #[trigger] rf_has(
                                g,
                                fv0,
                                g.rules@[a as int]@[r2]@,
                                0,
                                u,
                            ) ==> row@[u],
                        forall|u: int| 0 <= u < t && #[trigger] rf@[u] ==> row@[u],
                        !rowchanged ==> row@ == rowbase,
                        rowchanged ==> cf_row(row@, 0) < cf_row(rowbase, 0),
                        changed == (changed0 || rowchanged),
                    decreases wlen - t,
                {
                    if rf[t] && !row[t] {
                        proof {
                            lemma_cf_row_update(row@, t as int, 0);
                        }
                        row.set(t, true);
                        rowchanged = true;
                        changed = true;
                        proof {
                            assert(rf_has(g, fv0, g.rules@[a as int]@[r as int]@, 0, t as int));
                        }
                    }
                    t = t + 1;
                }
                proof {
                    assert forall|t2: int|
                        0 <= t2 < wlen && #[trigger] rf_has(
                            g,
                            fv0,
                            g.rules@[a as int]@[r as int]@,
                            0,
                            t2,
                        ) implies row@[t2] by {
                        assert(rf@[t2] == rf_has(g, fv0, g.rules@[a as int]@[r as int]@, 0, t2));
                    }
                }
                r = r + 1;
            }
            let ghost fb0 = fam@;
            fam.set(a, row);
            proof {
                assert forall|x: int| 0 <= x < fam@.len() implies (#[trigger] fam_view(fam@)[x]).len()
                    == width(g) by {
                    assert(fam_view(fam@)[x] == fam@[x]@);
                    assert(fam_view(fb0)[x] == fb0[x]@);
                }
                assert(fam_wf(g, fam_view(fam@)));
                assert(fam_view(fam@) =~= fv0.update(a as int, row@)) by {
                    assert forall|x: int| 0 <= x < fam@.len() implies fam_view(fam@)[x] =~= fv0.update(
                        a as int,
                        row@,
                    )[x] by {
                        assert(fam_view(fam@)[x] == fam@[x]@);
                        assert(fam_view(fb0)[x] == fb0[x]@);
                    }
                }
                let fvn = fam_view(fam@);
                // minimality is preserved: every newly recorded element is
                // forced by the equations in any closed family.
                assert forall|gv: Seq<Seq<bool>>|
                    fam_wf(g, gv) && closed_first(g, gv) implies #[trigger] sub_fam(fvn, gv) by {
                    assert(sub_fam(fv0, gv));
                    assert forall|t: int| 0 <= t < wlen && #[trigger] row@[t] implies gv[a as int].len()
                        == wlen && gv[a as int][t] by {
                        assert(gv[a as int].len() == width(g));
                        if rowbase[t] {
                            assert(fv0[a as int][t]);
                        } else {
                            let r2 = choose|r2: int|
                                0 <= r2 < nrules && #[trigger] rf_has(
                                    g,
                                    fv0,
                                    g.rules@[a as int]@[r2]@,
                                    0,
                                    t,
                                );
                            lemma_rf_mono(g, fv0, gv, g.rules@[a as int]@[r2]@, 0, t);
                            assert(rf_has(g, gv, g.rules@[a as int]@[r2]@, 0, t));
                        }
                    }
                    assert forall|x: int, t: int|
                        0 <= x < fvn.len() && 0 <= t < fvn[x].len() && (
                        #[trigger] fvn[x][t]) implies gv[x].len() == fvn[x].len() && gv[x][t] by {
                        if x != a {
                            assert(fvn[x] == fv0[x]);
                            assert(fv0[x][t]);
                        }
                    }
                }
                // counting and closure bookkeeping for the pass.
                if rowchanged {
                    lemma_cf_update(fv0, a as int, row@, 0);
                    assert(cf(fvn, 0) < cf(fv0, 0));
                    if changed0 {
                        assert(cf(fvn, 0) < cf(snap, 0));
                    } else {
                        assert(cf(fvn, 0) < cf(snap, 0));
                    }
                } else {
                    assert(row@ == rowbase);
                    assert(fvn =~= fv0);
                    if !changed0 {
                        assert(closed_first_upto(g, fvn, a + 1)) by {
                            assert forall|a2: int, r2: int, t: int|
                                0 <= a2 < a + 1 && 0 <= r2 < g.rules@[a2]@.len() && 0 <= t < width(
                                    g,
                                ) && rf_has(g, fvn, #[trigger] g.rules@[a2]@[r2]@, 0, t) implies
                                #[trigger] fvn[a2][t] by {
                                if a2 == a {
                                    assert(rf_has(g, fv0, g.rules@[a as int]@[r2]@, 0, t));
                                    assert(row@[t]);
                                    assert(fvn[a as int][t]);
                                }
                            }
                        }
                    }
                }
            }
            a = a + 1;
        }
        proof {
            if !changed {
                assert(closed_first(g, fam_view(fam@))) by {
                    assert(closed_first_upto(g, fam_view(fam@), n as int));
                }
            }
        }
    }
    proof {
        assert(least_closed_first(g, fam_view(fam@)));
    }
    fam
}

/// The FOLLOW conditions contributed by position `i` of rule `r` of
/// nonterminal `a`: when a nonterminal `B` stands there, whatever can
/// begin the rest of the body belongs to FOLLOW(B), and when the rest can
/// be empty, FOLLOW(A) is included in FOLLOW(B).
pub open spec fn closed_follow_pos(
    g: Grammar,
    first: Seq<Seq<bool>>,
    fo: Seq<Seq<bool>>,
    a: int,
    r: int,
    i: int,
) -> bool {
    let rule = g.rules@[a]@[r]@;
    rule[i] is N ==> {
        let b = rule[i]->N_0 as int;
        &&& (forall|t: int|
            0 <= t < width(g) && t != eps_i(g) && #[trigger] rf_has(g, first, rule, i + 1, t)
                ==> fo[b][t])
        &&& (rf_has(g, first, rule, i + 1, eps_i(g)) ==> (forall|t: int|
            0 <= t < width(g) && #[trigger] fo[a][t] ==> fo[b][t]))
    }
}

/// The family is closed under the FOLLOW inclusions, with the end-of-input
/// marker in FOLLOW of the start symbol.
pub open spec fn closed_follow(
    g: Grammar,
    first: Seq<Seq<bool>>,
    start: int,
    fo: Seq<Seq<bool>>,
) -> bool {
    &&& 0 <= start < fo.len() && fo[start][eof_i(g)]
    &&& forall|a: int, r: int, i: int|
        0 <= a < g.rules@.len() && 0 <= r < g.rules@[a]@.len() && 0 <= i
            < g.rules@[a]@[r]@.len() ==> #[trigger] closed_follow_pos(g, first, fo, a, r, i)
}

/// The least family closed under the FOLLOW inclusions.
pub open spec fn least_closed_follow(
    g: Grammar,
    first: Seq<Seq<bool>>,
    start: int,
    fo: Seq<Seq<bool>>,
) -> bool {
    &&& fam_wf(g, fo)
    &&& closed_follow(g, first, start, fo)
    &&& forall|gv: Seq<Seq<bool>>|
        fam_wf(g, gv) && closed_follow(g, first, start, gv) ==> #[trigger] sub_fam(fo, gv)
}

/// No FOLLOW set carries the empty word.
pub open spec fn no_eps(g: Grammar, fo: Seq<Seq<bool>>) -> bool {
    forall|x: int| 0 <= x < fo.len() ==> !(#[trigger] fo[x][eps_i(g)])
}

spec fn closed_follow_upto_a(g: Grammar, first: Seq<Seq<bool>>, fo: Seq<Seq<bool>>, a_hi: int) -> bool {
    forall|a: int, r: int, i: int|
        0 <= a < a_hi && 0 <= r < g.rules@[a]@.len() && 0 <= i < g.rules@[a]@[r]@.len()
            ==> #[trigger] closed_follow_pos(g, first, fo, a, r, i)
}

spec fn closed_follow_upto_r(g: Grammar, first: Seq<Seq<bool>>, fo: Seq<Seq<bool>>, a: int, r_hi: int) -> bool {
    forall|r: int, i: int|
        0 <= r < r_hi && 0 <= i < g.rules@[a]@[r]@.len() ==> #[trigger] closed_follow_pos(
            g,
            first,
            fo,
            a,
            r,
            i,
        )
}

spec fn closed_follow_upto_i(g: Grammar, first: Seq<Seq<bool>>, fo: Seq<Seq<bool>>, a: int, r: int, i_hi: int) -> bool {
    forall|i: int|
        0 <= i < i_hi ==> #[trigger] closed_follow_pos(g, first, fo, a, r, i)
}

/// The FOLLOW family: the least family closed under the FOLLOW
/// inclusions over the given FIRST sets, seeded with the end-of-input
/// marker for the start symbol. No FOLLOW set carries the empty word.
pub fn generate_follow(grammar: &Grammar, first: &Vec<Vec<bool>>, start: usize) -> (r: Vec<Vec<bool>>)
    requires
        g_wf(*grammar),
        fam_wf(*grammar, fam_view(first@)),
        start < grammar.rules@.len(),
    ensures
        least_closed_follow(*grammar, fam_view(first@), start as int, fam_view(r@)),
        no_eps(*grammar, fam_view(r@)),
{
    let ghost g = *grammar;
    let ghost fstv = fam_view(first@);
    let n = grammar.rules.len();
    let mut fam: Vec<Vec<bool>> = Vec::new();
    let mut a0: usize = 0;
    while a0 < n
        invariant
            a0 <= n,
            fam@.len() == a0,
            forall|a: int| 0 <= a < a0 ==> (#[trigger] fam@[a])@.len() == width(*grammar),
            forall|a: int, t: int|
                0 <= a < a0 && 0 <= t < fam@[a]@.len() ==> !(#[trigger] fam@[a]@[t]),
        decreases n - a0,
    {
        let row = empty_row(grammar);
        fam.push(row);
        a0 = a0 + 1;
    }
    // FOLLOW(S) starts from { Eof }.
    let mut srow = empty_row(grammar);
    let eofi = srow.len() - 2;
    srow.set(eofi, true);
    let ghost fb00 = fam@;
    fam.set(start, srow);
    proof {
        assert forall|x: int| 0 <= x < fam@.len() implies (#[trigger] fam_view(fam@)[x]).len()
            == width(g) by {
            assert(fam_view(fam@)[x] == fam@[x]@);
            assert(fam_view(fb00)[x] == fb00[x]@);
        }
        assert(fam_wf(g, fam_view(fam@)));
        assert(fam_view(fam@)[start as int][eof_i(g)]);
        assert forall|x: int| 0 <= x < fam_view(fam@).len() implies !(#[trigger] fam_view(
            fam@,
        )[x][eps_i(g)]) by {
            assert(fam_view(fam@)[x] == fam@[x]@);
            assert(fam_view(fb00)[x] == fb00[x]@);
        }
        assert(no_eps(g, fam_view(fam@)));
        assert forall|gv: Seq<Seq<bool>>|
            fam_wf(g, gv) && closed_follow(g, fstv, start as int, gv) implies #[trigger] sub_fam(
            fam_view(fam@),
            gv,
        ) by {
            assert forall|x: int, t: int|
                0 <= x < fam_view(fam@).len() && 0 <= t < fam_view(fam@)[x].len() && (
                #[trigger] fam_view(fam@)[x][t]) implies gv[x].len() == fam_view(fam@)[x].len()
                && gv[x][t] by {
                assert(fam_view(fam@)[x] == fam@[x]@);
                assert(fam_view(fb00)[x] == fb00[x]@);
                assert(gv[x].len() == width(g));
            }
        }
    }
    let mut changed = true;
    while changed
        invariant
            g == *grammar,
            fstv == fam_view(first@),
            g_wf(g),
            fam_wf(g, fstv),
            n == g.rules@.len(),
            (start as int) < n,
            fam_wf(g, fam_view(fam@)),
            fam_view(fam@)[start as int][eof_i(g)],
            no_eps(g, fam_view(fam@)),
            forall|gv: Seq<Seq<bool>>|
                fam_wf(g, gv) && closed_follow(g, fstv, start as int, gv) ==> #[trigger] sub_fam(
                    fam_view(fam@),
                    gv,
                ),
            !changed ==> closed_follow(g, fstv, start as int, fam_view(fam@)),
        decreases cf(fam_view(fam@), 0) + (if changed {
            1int
        } else {
            0int
        }),
    {
        changed = false;
        let ghost snap = fam_view(fam@);
        let mut a: usize = 0;
        while a < n
            invariant
                g == *grammar,
                fstv == fam_view(first@),
                g_wf(g),
                fam_wf(g, fstv),
                n == g.rules@.len(),
                (start as int) < n,
                a <= n,
                fam_wf(g, fam_view(fam@)),
                fam_view(fam@)[start as int][eof_i(g)],
                no_eps(g, fam_view(fam@)),
                forall|gv: Seq<Seq<bool>>|
                    fam_wf(g, gv) && closed_follow(g, fstv, start as int, gv) ==> #[trigger] sub_fam(
                        fam_view(fam@),
                        gv,
                    ),
                changed ==> cf(fam_view(fam@), 0) < cf(snap, 0),
                !changed ==> fam_view(fam@) == snap,
                !changed ==> closed_follow_upto_a(g, fstv, fam_view(fam@), a as int),
            decreases n - a,
        {
            let nrules = grammar.rules[a].len();
            let mut r: usize = 0;
            while r < nrules
                invariant
                    g == *grammar,
                    fstv == fam_view(first@),
                    g_wf(g),
                    fam_wf(g, fstv),
                    n == g.rules@.len(),
                    (start as int) < n,
                    a < n,
                    nrules == g.rules@[a as int]@.len(),
                    r <= nrules,
                    fam_wf(g, fam_view(fam@)),
                    fam_view(fam@)[start as int][eof_i(g)],
                    no_eps(g, fam_view(fam@)),
                    forall|gv: Seq<Seq<bool>>|
                        fam_wf(g, gv) && closed_follow(g, fstv, start as int, gv)
                            ==> #[trigger] sub_fam(fam_view(fam@), gv),
                    changed ==> cf(fam_view(fam@), 0) < cf(snap, 0),
                    !changed ==> fam_view(fam@) == snap,
                    !changed ==> closed_follow_upto_a(g, fstv, fam_view(fam@), a as int),
                    !changed ==> closed_follow_upto_r(g, fstv, fam_view(fam@), a as int, r as int),
                decreases nrules - r,
            {
                let rlen = grammar.rules[a][r].len();
                let mut i: usize = 0;
                while i < rlen
                    invariant
                        g == *grammar,
                        fstv == fam_view(first@),
                        g_wf(g),
                        fam_wf(g, fstv),
                        n == g.rules@.len(),
                        (start as int) < n,
                        a < n,
                        nrules == g.rules@[a as int]@.len(),
                        r < nrules,
                        rlen == g.rules@[a as int]@[r as int]@.len(),
                        i <= rlen,
                        fam_wf(g, fam_view(fam@)),
                        fam_view(fam@)[start as int][eof_i(g)],
                        no_eps(g, fam_view(fam@)),
                        forall|gv: Seq<Seq<bool>>|
                            fam_wf(g, gv) && closed_follow(g, fstv, start as int, gv)
                                ==> #[trigger] sub_fam(fam_view(fam@), gv),
                        changed ==> cf(fam_view(fam@), 0) < cf(snap, 0),
                        !changed ==> fam_view(fam@) == snap,
                        !changed ==> closed_follow_upto_a(g, fstv, fam_view(fam@), a as int),
                        !changed ==> closed_follow_upto_r(
                            g,
                            fstv,
                            fam_view(fam@),
                            a as int,
                            r as int,
                        ),
                        !changed ==> closed_follow_upto_i(
                            g,
                            fstv,
                            fam_view(fam@),
                            a as int,
                            r as int,
                            i as int,
                        ),
                    decreases rlen - i,
                {
                    let ghost fo_cur = fam_view(fam@);
                    let ghost changed0 = changed;
                    let ghost rule = g.rules@[a as int]@[r as int]@;
                    let b_opt: Option<usize> = match grammar.rules[a][r][i] {
                        Sym::N(b) => Some(b),
                        Sym::T(_) => None,
                    };
                    match b_opt {
                        Some(b) => {
                            proof {
                                assert(sym_ok(g, g.rules@[a as int]@[r as int]@[i as int]));
                                assert(forall|k: int|
                                    0 <= k < g.rules@[a as int]@[r as int]@.len() ==> sym_ok(
                                        g,
                                        #[trigger] g.rules@[a as int]@[r as int]@[k],
                                    ));
                                assert(rule[i as int]->N_0 == b);
                                assert((b as int) < n);
                            }
                            let first_rest = get_first_from(
                                &grammar.rules[a][r],
                                grammar,
                                first,
                                i + 1,
                            );
                            let wlen = first_rest.len();
                            let eps = wlen - 1;
                            let mut fb = empty_row(grammar);
                            proof {
                                assert(fam_view(fam@)[b as int] == fam@[b as int]@);
                            }
                            let mut t0: usize = 0;
                            while t0 < wlen
                                invariant
                                    t0 <= wlen,
                                    wlen == fb@.len(),
                                    wlen == width(g),
                                    fam_wf(g, fam_view(fam@)),
                                    fo_cur == fam_view(fam@),
                                    0 <= b < fam@.len(),
                                    fam@[b as int]@.len() == wlen,
                                    forall|u: int| 0 <= u < t0 ==> fb@[u] == fo_cur[b as int][u],
                                    forall|u: int| t0 <= u < wlen ==> !(#[trigger] fb@[u]),
                                decreases wlen - t0,
                            {
                                if fam[b][t0] {
                                    fb.set(t0, true);
                                } else {
                                    fb.set(t0, false);
                                }
                                t0 = t0 + 1;
                            }
                            let ghost fbbase = fb@;
                            proof {
                                assert(fbbase =~= fo_cur[b as int]);
                                assert(!fbbase[eps_i(g)]);
                            }
                            let mut fbchanged = false;
                            let mut t: usize = 0;
                            while t < wlen
                                invariant
                                    g == *grammar,
                                    fstv == fam_view(first@),
                                    t <= wlen,
                                    wlen == fb@.len(),
                                    wlen == first_rest@.len(),
                                    wlen == width(g),
                                    eps == wlen - 1,
                                    eps == eps_i(g),
                                    a < n,
                                    n == g.rules@.len(),
                                    r < nrules,
                                    nrules == g.rules@[a as int]@.len(),
                                    i < rlen,
                                    rlen == rule.len(),
                                    rule == g.rules@[a as int]@[r as int]@,
                                    fo_cur == fam_view(fam@),
                                    (b as int) < n,
                                    fbbase == fo_cur[b as int],
                                    fbbase.len() == wlen,
                                    no_eps(g, fo_cur),
                                    forall|u: int|
                                        0 <= u < wlen ==> #[trigger] first_rest@[u] == rf_has(
                                            g,
                                            fstv,
                                            rule,
                                            i + 1,
                                            u,
                                        ),
                                    forall|u: int| 0 <= u < wlen && fbbase[u] ==> #[trigger] fb@[u],
                                    forall|u: int|
                                        0 <= u < wlen && #[trigger] fb@[u] ==> fbbase[u] || (u
                                            != eps_i(g) && rf_has(g, fstv, rule, i + 1, u)),
                                    forall|u: int|
                                        0 <= u < t && u != eps_i(g) && #[trigger] first_rest@[u]
                                            ==> fb@[u],
                                    !fb@[eps_i(g)],
                                    !fbchanged ==> fb@ == fbbase,
                                    fbchanged ==> cf_row(fb@, 0) < cf_row(fbbase, 0),
                                    changed == (changed0 || fbchanged),
                                decreases wlen - t,
                            {
                                if t != eps && first_rest[t] && !fb[t] {
                                    proof {
                                        lemma_cf_row_update(fb@, t as int, 0);
                                    }
                                    fb.set(t, true);
                                    fbchanged = true;
                                    changed = true;
                                }
                                t = t + 1;
                            }
                            let has_eps_rest = first_rest[eps];
                            if has_eps_rest {
                                proof {
                                    assert(fam_view(fam@)[a as int] == fam@[a as int]@);
                                }
                                let mut t2: usize = 0;
                                while t2 < wlen
                                    invariant
                                        g == *grammar,
                                        fstv == fam_view(first@),
                                        t2 <= wlen,
                                        wlen == fb@.len(),
                                        wlen == first_rest@.len(),
                                        wlen == width(g),
                                        eps == wlen - 1,
                                        eps == eps_i(g),
                                        a < n,
                                        n == g.rules@.len(),
                                        r < nrules,
                                        nrules == g.rules@[a as int]@.len(),
                                        i < rlen,
                                        rlen == rule.len(),
                                        rule == g.rules@[a as int]@[r as int]@,
                                        fo_cur == fam_view(fam@),
                                        (b as int) < n,
                                        0 <= a < fam@.len(),
                                        fam@[a as int]@.len() == wlen,
                                        fbbase == fo_cur[b as int],
                                        fbbase.len() == wlen,
                                        no_eps(g, fo_cur),
                                        rf_has(g, fstv, rule, i + 1, eps_i(g)),
                                        forall|u: int|
                                            0 <= u < wlen && fbbase[u] ==> #[trigger] fb@[u],
                                        forall|u: int|
                                            0 <= u < wlen && #[trigger] fb@[u] ==> fbbase[u] || (u
                                                != eps_i(g) && rf_has(g, fstv, rule, i + 1, u)) || (
                                            rf_has(g, fstv, rule, i + 1, eps_i(g))
                                                && fo_cur[a as int][u]),
                                        forall|u: int|
                                            0 <= u < wlen && u != eps_i(g)
                                                && #[trigger] first_rest@[u] ==> fb@[u],
                                        forall|u: int|
                                            0 <= u < t2 && #[trigger] fo_cur[a as int][u]
                                                ==> fb@[u],
                                        !fb@[eps_i(g)],
                                        !fbchanged ==> fb@ == fbbase,
                                        fbchanged ==> cf_row(fb@, 0) < cf_row(fbbase, 0),
                                        changed == (changed0 || fbchanged),
                                    decreases wlen - t2,
                                {
                                    if fam[a][t2] && !fb[t2] {
                                        proof {
                                            lemma_cf_row_update(fb@, t2 as int, 0);
                                            assert(fo_cur[a as int] == fam@[a as int]@);
                                            assert(fo_cur[a as int][t2 as int]);
                                            assert(!fo_cur[a as int][eps_i(g)]);
                                        }
                                        fb.set(t2, true);
                                        fbchanged = true;
                                        changed = true;
                                    }
                                    t2 = t2 + 1;
                                }
                            }
                            let ghost fb0 = fam@;
                            fam.set(b, fb);
                            proof {
                                assert forall|x: int|
                                    0 <= x < fam@.len() implies (#[trigger] fam_view(fam@)[x]).len()
                                        == width(g) by {
                                    assert(fam_view(fam@)[x] == fam@[x]@);
                                    assert(fam_view(fb0)[x] == fb0[x]@);
                                }
                                assert(fam_wf(g, fam_view(fam@)));
                                assert(fam_view(fam@) =~= fo_cur.update(b as int, fb@)) by {
                                    assert forall|x: int|
                                        0 <= x < fam@.len() implies fam_view(fam@)[x]
                                            =~= fo_cur.update(b as int, fb@)[x] by {
                                        assert(fam_view(fam@)[x] == fam@[x]@);
                                        assert(fam_view(fb0)[x] == fb0[x]@);
                                    }
                                }
                                let fvn = fam_view(fam@);
                                // seed and eps-freeness survive the update
                                assert(fvn[start as int][eof_i(g)]) by {
                                    if b as int == start as int {
                                        assert(fbbase[eof_i(g)]);
                                    }
                                }
                                assert forall|x: int| 0 <= x < fvn.len() implies !(
                                #[trigger] fvn[x][eps_i(g)]) by {
                                    if x != b as int {
                                        assert(fvn[x] == fo_cur[x]);
                                    }
                                }
                                // minimality: every new element is forced in
                                // any closed family.
                                assert forall|gv: Seq<Seq<bool>>|
                                    fam_wf(g, gv) && closed_follow(g, fstv, start as int, gv)
                                        implies #[trigger] sub_fam(fvn, gv) by {
                                    assert(sub_fam(fo_cur, gv));
                                    assert(closed_follow_pos(g, fstv, gv, a as int, r as int, i as int));
                                    assert forall|u: int|
                                        0 <= u < wlen && #[trigger] fb@[u] implies gv[b as int].len()
                                        == wlen && gv[b as int][u] by {
                                        assert(gv[b as int].len() == width(g));
                                        if fbbase[u] {
                                            assert(fo_cur[b as int][u]);
                                        } else if u != eps_i(g) && rf_has(g, fstv, rule, i + 1, u) {
                                            assert(gv[b as int][u]);
                                        } else {
                                            assert(rf_has(g, fstv, rule, i + 1, eps_i(g))
                                                && fo_cur[a as int][u]);
                                            assert(gv[a as int][u]);
                                        }
                                    }
                                    assert forall|x: int, u: int|
                                        0 <= x < fvn.len() && 0 <= u < fvn[x].len() && (
                                        #[trigger] fvn[x][u]) implies gv[x].len() == fvn[x].len()
                                        && gv[x][u] by {
                                        if x != b as int {
                                            assert(fvn[x] == fo_cur[x]);
                                            assert(fo_cur[x][u]);
                                        }
                                    }
                                }
                                // counting and closure bookkeeping
                                if fbchanged {
                                    lemma_cf_update(fo_cur, b as int, fb@, 0);
                                    assert(cf(fvn, 0) < cf(fo_cur, 0));
                                    assert(cf(fvn, 0) < cf(snap, 0));
                                } else {
                                    assert(fb@ == fbbase);
                                    assert(fvn =~= fo_cur);
                                    if !changed0 {
                                        assert(closed_follow_pos(g, fstv, fvn, a as int, r as int, i as int))
                                            by {
                                            assert forall|u: int|
                                                0 <= u < width(g) && u != eps_i(g)
                                                    && #[trigger] rf_has(g, fstv, rule, i + 1, u)
                                                    implies fvn[b as int][u] by {
                                                assert(first_rest@[u]);
                                                assert(fb@[u]);
                                            }
                                            if rf_has(g, fstv, rule, i + 1, eps_i(g)) {
                                                assert(first_rest@[eps_i(g)]);
                                                assert forall|u: int|
                                                    0 <= u < width(g) && #[trigger] fvn[a as int][u]
                                                        implies fvn[b as int][u] by {
                                                    assert(fo_cur[a as int][u]);
                                                    assert(fb@[u]);
                                                }
                                            }
                                        }
                                        assert(closed_follow_upto_i(
                                            g,
                                            fstv,
                                            fam_view(fam@),
                                            a as int,
                                            r as int,
                                            i + 1,
                                        ));
                                    }
                                }
                            }
                        },
                        None => {
                            proof {
                                if !changed {
                                    assert(closed_follow_pos(
                                        g,
                                        fstv,
                                        fam_view(fam@),
                                        a as int,
                                        r as int,
                                        i as int,
                                    ));
                                    assert(closed_follow_upto_i(
                                        g,
                                        fstv,
                                        fam_view(fam@),
                                        a as int,
                                        r as int,
                                        i + 1,
                                    ));
                                }
                            }
                        },
                    }
                    i = i + 1;
                }
                proof {
                    if !changed {
                        assert(closed_follow_upto_r(
                            g,
                            fstv,
                            fam_view(fam@),
                            a as int,
                            r + 1,
                        )) by {
                            assert forall|r2: int, i2: int|
                                0 <= r2 < r + 1 && 0 <= i2 < g.rules@[a as int]@[r2]@.len() implies
                                #[trigger] closed_follow_pos(
                                g,
                                fstv,
                                fam_view(fam@),
                                a as int,
                                r2,
                                i2,
                            ) by {
                                if r2 == r as int {
                                    assert(closed_follow_upto_i(
                                        g,
                                        fstv,
                                        fam_view(fam@),
                                        a as int,
                                        r as int,
                                        rlen as int,
                                    ));
                                }
                            }
                        }
                    }
                }
                r = r + 1;
            }
            proof {
                if !changed {
                    assert(closed_follow_upto_a(g, fstv, fam_view(fam@), a + 1)) by {
                        assert forall|a2: int, r2: int, i2: int|
                            0 <= a2 < a + 1 && 0 <= r2 < g.rules@[a2]@.len() && 0 <= i2
                                < g.rules@[a2]@[r2]@.len() implies #[trigger] closed_follow_pos(
                            g,
                            fstv,
                            fam_view(fam@),
                            a2,
                            r2,
                            i2,
                        ) by {
                            if a2 == a as int {
                                assert(closed_follow_upto_r(
                                    g,
                                    fstv,
                                    fam_view(fam@),
                                    a as int,
                                    nrules as int,
                                ));
                            }
                        }
                    }
                }
            }
            a = a + 1;
        }
        proof {
            if !changed {
                assert(closed_follow(g, fstv, start as int, fam_view(fam@))) by {
                    assert(closed_follow_upto_a(g, fstv, fam_view(fam@), n as int));
                }
            }
        }
    }
    proof {
        assert(least_closed_follow(g, fstv, start as int, fam_view(fam@)));
    }
    fam
}

/// Two rows share no column.
fn rows_disjoint(x: &Vec<bool>, y: &Vec<bool>) -> (r: bool)
    requires
        x@.len() == y@.len(),
    ensures
        r == !(exists|t: int| 0 <= t < x@.len() && #[trigger] x@[t] && y@[t]),
{
    let n = x.len();
    let mut i: usize = 0;
    while i < n
        invariant
            n == x@.len() == y@.len(),
            i <= n,
            forall|t: int| 0 <= t < i ==> !(#[trigger] x@[t] && y@[t]),
        decreases n - i,
    {
        if x[i] && y[i] {
            return false;
        }
        i = i + 1;
    }
    true
}

/// The LL(1) condition over the given FIRST and FOLLOW families: the FIRST
/// sets of any two alternatives of a nonterminal are disjoint, and when an
/// alternative can be empty the other's FIRST is disjoint from FOLLOW.
pub open spec fn ll1_pair_ok(
    g: Grammar,
    first: Seq<Seq<bool>>,
    follow: Seq<Seq<bool>>,
    a: int,
    i: int,
    j: int,
) -> bool {
    let alpha = g.rules@[a]@[i]@;
    let beta = g.rules@[a]@[j]@;
    &&& !(exists|t: int|
        0 <= t < width(g) && #[trigger] rf_has(g, first, alpha, 0, t) && rf_has(g, first, beta, 0, t))
    &&& (rf_has(g, first, alpha, 0, eps_i(g)) ==> !(exists|t: int|
        0 <= t < width(g) && #[trigger] follow[a][t] && rf_has(g, first, beta, 0, t)))
    &&& (rf_has(g, first, beta, 0, eps_i(g)) ==> !(exists|t: int|
        0 <= t < width(g) && #[trigger] follow[a][t] && rf_has(g, first, alpha, 0, t)))
}

pub open spec fn ll1_ok(g: Grammar, first: Seq<Seq<bool>>, follow: Seq<Seq<bool>>) -> bool {
    forall|a: int, i: int, j: int|
        0 <= a < g.rules@.len() && 0 <= i < j < g.rules@[a]@.len() ==> #[trigger] ll1_pair_ok(
            g,
            first,
            follow,
            a,
            i,
            j,
        )
}

fn pair_check(
    grammar: &Grammar,
    first: &Vec<Vec<bool>>,
    follow: &Vec<Vec<bool>>,
    a: usize,
    i: usize,
    j: usize,
) -> (r: bool)
    requires
        g_wf(*grammar),
        fam_wf(*grammar, fam_view(first@)),
        fam_wf(*grammar, fam_view(follow@)),
        a < grammar.rules@.len(),
        i < grammar.rules@[a as int]@.len(),
        j < grammar.rules@[a as int]@.len(),
    ensures
        r == ll1_pair_ok(*grammar, fam_view(first@), fam_view(follow@), a as int, i as int, j as int),
{
    proof {
        assert(forall|k: int|
            0 <= k < grammar.rules@[a as int]@[i as int]@.len() ==> sym_ok(
                *grammar,
                #[trigger] grammar.rules@[a as int]@[i as int]@[k],
            ));
        assert(forall|k: int|
            0 <= k < grammar.rules@[a as int]@[j as int]@.len() ==> sym_ok(
                *grammar,
                #[trigger] grammar.rules@[a as int]@[j as int]@[k],
            ));
        assert(fam_view(follow@)[a as int] == follow@[a as int]@);
    }
    let fa = get_first(&grammar.rules[a][i], grammar, first);
    let fb = get_first(&grammar.rules[a][j], grammar, first);
    let eps = fa.len() - 1;
    let ghost g = *grammar;
    let ghost fv1 = fam_view(first@);
    let ghost fv2 = fam_view(follow@);
    let ghost alpha = grammar.rules@[a as int]@[i as int]@;
    let ghost beta = grammar.rules@[a as int]@[j as int]@;
    if !rows_disjoint(&fa, &fb) {
        proof {
            let t = choose|t: int| 0 <= t < fa@.len() && #[trigger] fa@[t] && fb@[t];
            assert(rf_has(g, fv1, alpha, 0, t) && rf_has(g, fv1, beta, 0, t));
        }
        return false;
    }
    if fa[eps] {
        if !rows_disjoint(&follow[a], &fb) {
            proof {
                let t = choose|t: int|
                    0 <= t < follow@[a as int]@.len() && #[trigger] follow@[a as int]@[t]
                        && fb@[t];
                assert(fv2[a as int][t] && rf_has(g, fv1, beta, 0, t));
                assert(rf_has(g, fv1, alpha, 0, eps_i(g)));
            }
            return false;
        }
    }
    if fb[eps] {
        if !rows_disjoint(&follow[a], &fa) {
            proof {
                let t = choose|t: int|
                    0 <= t < follow@[a as int]@.len() && #[trigger] follow@[a as int]@[t]
                        && fa@[t];
                assert(fv2[a as int][t] && rf_has(g, fv1, alpha, 0, t));
                assert(rf_has(g, fv1, beta, 0, eps_i(g)));
            }
            return false;
        }
    }
    proof {
        assert forall|t: int|
            0 <= t < width(g) implies !(#[trigger] rf_has(g, fv1, alpha, 0, t) && rf_has(
            g,
            fv1,
            beta,
            0,
            t,
        )) by {
            assert(fa@[t] == rf_has(g, fv1, alpha, 0, t));
            assert(fb@[t] == rf_has(g, fv1, beta, 0, t));
        }
        assert(fa@[eps_i(g)] == rf_has(g, fv1, alpha, 0, eps_i(g)));
        assert(fb@[eps_i(g)] == rf_has(g, fv1, beta, 0, eps_i(g)));
        if rf_has(g, fv1, alpha, 0, eps_i(g)) {
            assert forall|t: int|
                0 <= t < width(g) implies !(#[trigger] fv2[a as int][t] && rf_has(
                g,
                fv1,
                beta,
                0,
                t,
            )) by {
                assert(fv2[a as int][t] == follow@[a as int]@[t]);
                assert(fb@[t] == rf_has(g, fv1, beta, 0, t));
            }
        }
        if rf_has(g, fv1, beta, 0, eps_i(g)) {
            assert forall|t: int|
                0 <= t < width(g) implies !(#[trigger] fv2[a as int][t] && rf_has(
                g,
                fv1,
                alpha,
                0,
                t,
            )) by {
                assert(fv2[a as int][t] == follow@[a as int]@[t]);
                assert(fa@[t] == rf_has(g, fv1, alpha, 0, t));
            }
        }
    }
    true
}

/// The first LL(1) conflict, if any: a nonterminal and the two offending
/// alternatives. `None` exactly when the grammar is LL(1) under the given
/// FIRST and FOLLOW families.
fn find_ll1_conflict(grammar: &Grammar, first: &Vec<Vec<bool>>, follow: &Vec<Vec<bool>>) -> (r:
    Option<(usize, usize, usize)>)
    requires
        g_wf(*grammar),
        fam_wf(*grammar, fam_view(first@)),
        fam_wf(*grammar, fam_view(follow@)),
    ensures
        match r {
            None => ll1_ok(*grammar, fam_view(first@), fam_view(follow@)),
            Some((a, i, j)) => a < grammar.rules@.len() && i < j < grammar.rules@[a as int]@.len()
                && !ll1_pair_ok(
                *grammar,
                fam_view(first@),
                fam_view(follow@),
                a as int,
                i as int,
                j as int,
            ),
        },
{
    let n = grammar.rules.len();
    let mut a: usize = 0;
    while a < n
        invariant
            g_wf(*grammar),
            fam_wf(*grammar, fam_view(first@)),
            fam_wf(*grammar, fam_view(follow@)),
            n == grammar.rules@.len(),
            a <= n,
            forall|a2: int, i2: int, j2: int|
                0 <= a2 < a && 0 <= i2 < j2 < grammar.rules@[a2]@.len() ==> #[trigger] ll1_pair_ok(
                    *grammar,
                    fam_view(first@),
                    fam_view(follow@),
                    a2,
                    i2,
                    j2,
                ),
        decreases n - a,
    {
        let m = grammar.rules[a].len();
        let mut i: usize = 0;
        while i < m
            invariant
                g_wf(*grammar),
                fam_wf(*grammar, fam_view(first@)),
                fam_wf(*grammar, fam_view(follow@)),
                n == grammar.rules@.len(),
                a < n,
                m == grammar.rules@[a as int]@.len(),
                i <= m,
                forall|i2: int, j2: int|
                    0 <= i2 < i && i2 < j2 < m ==> #[trigger] ll1_pair_ok(
                        *grammar,
                        fam_view(first@),
                        fam_view(follow@),
                        a as int,
                        i2,
                        j2,
                    ),
            decreases m - i,
        {
            let mut j: usize = i + 1;
            while j < m
                invariant
                    g_wf(*grammar),
                    fam_wf(*grammar, fam_view(first@)),
                    fam_wf(*grammar, fam_view(follow@)),
                    n == grammar.rules@.len(),
                    a < n,
                    m == grammar.rules@[a as int]@.len(),
                    i < j,
                    i < m,
                    j <= m,
                    forall|j2: int|
                        i < j2 < j ==> #[trigger] ll1_pair_ok(
                            *grammar,
                            fam_view(first@),
                            fam_view(follow@),
                            a as int,
                            i as int,
                            j2,
                        ),
                decreases m - j,
            {
                if !pair_check(grammar, first, follow, a, i, j) {
                    return Some((a, i, j));
                }
                j = j + 1;
            }
            i = i + 1;
        }
        a = a + 1;
    }
    None
}

/// The §4.2 validation: true exactly when every pair of alternatives of
/// every nonterminal meets the LL(1) condition under the given families.
pub fn validate_first_and_follow(
    first: &Vec<Vec<bool>>,
    follow: &Vec<Vec<bool>>,
    grammar: &Grammar,
) -> (r: bool)
    requires
        g_wf(*grammar),
        fam_wf(*grammar, fam_view(first@)),
        fam_wf(*grammar, fam_view(follow@)),
    ensures
        r == ll1_ok(*grammar, fam_view(first@), fam_view(follow@)),
{
    let c = find_ll1_conflict(grammar, first, follow);
    match c {
        None => true,
        Some((a, i, j)) => {
            proof {
                assert(!ll1_pair_ok(
                    *grammar,
                    fam_view(first@),
                    fam_view(follow@),
                    a as int,
                    i as int,
                    j as int,
                ));
            }
            false
        },
    }
}


// ---------------------------------------------------------------------------
// Interning and validation.
// ---------------------------------------------------------------------------
/// Why a grammar description cannot be turned into a parser.
#[derive(Debug)]
pub enum GenError {
    MetaParse(crate::parser_description::MetaParseError),
    UndefinedSymbol { name: String },
    MissingStart,
    ReservedTerminal,
    NotLL1 { nonterminal: String, alternatives: (usize, usize) },
}

/// The index of the first occurrence of `name` in `names`.
fn lookup(names: &Vec<String>, name: &String) -> (r: Option<usize>)
    ensures
        match r {
            Some(i) => i < names@.len() && names@[i as int]@ == name@ && lookup_spec(
                names_view(names@),
                name@,
                0,
            ) == Some(i as int),
            None => lookup_spec(names_view(names@), name@, 0) is None && (forall|i: int|
                0 <= i < names@.len() ==> (#[trigger] names@[i])@ != name@),
        },
{
    let ghost nv = names_view(names@);
    let n = names.len();
    let mut i: usize = 0;
    while i < n
        invariant
            n == names@.len(),
            i <= n,
            nv == names_view(names@),
            nv.len() == n,
            forall|k: int| 0 <= k < i ==> (#[trigger] names@[k])@ != name@,
            lookup_spec(nv, name@, 0) == lookup_spec(nv, name@, i as int),
        decreases n - i,
    {
        proof {
            assert(nv[i as int] == names@[i as int]@);
        }
        if names[i].eq(name) {
            return Some(i);
        }
        i = i + 1;
    }
    None
}

/// The call names of an alternative from member `i` on, with the
/// `Command` members dropped.
pub open spec fn rule_call_names(members: Seq<RuleMember>, i: int) -> Seq<Seq<char>>
    decreases members.len() - i,
{
    if 0 <= i < members.len() {
        match members[i] {
            RuleMember::RuleCall(rt) => seq![rt.name@] + rule_call_names(members, i + 1),
            RuleMember::Command(_) => rule_call_names(members, i + 1),
        }
    } else {
        Seq::empty()
    }
}

/// Is `nm` a declared terminal or nonterminal name?
pub open spec fn defined(pd: ParserDescription, nm: Seq<char>) -> bool {
    lookup_spec(term_names(pd), nm, 0) is Some || lookup_spec(nt_names(pd), nm, 0) is Some
}

/// Every rule call of the description resolves to a declaration.
pub open spec fn all_defined(pd: ParserDescription) -> bool {
    forall|a: int, r: int, k: int|
        0 <= a < pd.not_terminal@.len() && 0 <= r < pd.not_terminal@[a].rules@.len() && 0 <= k
            < rule_call_names(pd.not_terminal@[a].rules@[r].members@, 0).len() ==> defined(
            pd,
            #[trigger] rule_call_names(pd.not_terminal@[a].rules@[r].members@, 0)[k],
        )
}

/// The symbol a name resolves to: a terminal wins over a nonterminal.
pub open spec fn sym_of(pd: ParserDescription, nm: Seq<char>) -> Sym {
    match lookup_spec(term_names(pd), nm, 0) {
        Some(i) => Sym::T(i as usize),
        None => Sym::N(lookup_spec(nt_names(pd), nm, 0)->Some_0 as usize),
    }
}

/// `g` is the interning of the description: the declared names in order,
/// and every rule call resolved by first match, terminals first.
pub open spec fn interned(pd: ParserDescription, g: Grammar) -> bool {
    &&& g_wf(g)
    &&& names_view(g.terminals@) == term_names(pd)
    &&& names_view(g.nts@) == nt_names(pd)
    &&& g.rules@.len() == pd.not_terminal@.len()
    &&& forall|a: int|
        0 <= a < g.rules@.len() ==> (#[trigger] g.rules@[a])@.len()
            == pd.not_terminal@[a].rules@.len()
    &&& forall|a: int, r: int|
        0 <= a < g.rules@.len() && 0 <= r < g.rules@[a]@.len() ==> (
        #[trigger] g.rules@[a]@[r])@.len() == rule_call_names(
            pd.not_terminal@[a].rules@[r].members@,
            0,
        ).len()
    &&& forall|a: int, r: int, k: int|
        0 <= a < g.rules@.len() && 0 <= r < g.rules@[a]@.len() && 0 <= k
            < g.rules@[a]@[r]@.len() ==> (#[trigger] g.rules@[a]@[r]@[k]) == sym_of(
            pd,
            rule_call_names(pd.not_terminal@[a].rules@[r].members@, 0)[k],
        )
}

/// The rule bodies of a declaration, as symbol names with the `Command`
/// members dropped.
fn convert_rule_to_strings(rule: &Rule) -> (r: Vec<String>)
    ensures
        names_view(r@) == rule_call_names(rule.members@, 0),
{
    let mut out: Vec<String> = Vec::new();
    let n = rule.members.len();
    let mut i: usize = 0;
    while i < n
        invariant
            n == rule.members@.len(),
            i <= n,
            rule_call_names(rule.members@, 0) == names_view(out@) + rule_call_names(
                rule.members@,
                i as int,
            ),
        decreases n - i,
    {
        match &rule.members[i] {
            RuleMember::RuleCall(rt) => {
                out.push(rt.name.clone());
                proof {
                    assert(rule_call_names(rule.members@, 0) =~= names_view(out@)
                        + rule_call_names(rule.members@, i + 1));
                }
            },
            RuleMember::Command(_) => {},
        }
        i = i + 1;
    }
    proof {
        assert(names_view(out@) =~= rule_call_names(rule.members@, 0));
    }
    out
}

/// The rule bodies of a declaration as symbol-name lists.
fn get_rules(rules: &Vec<Rule>) -> (r: Vec<Vec<String>>)
{
    let mut out: Vec<Vec<String>> = Vec::new();
    let n = rules.len();
    let mut i: usize = 0;
    while i < n
        invariant
            n == rules@.len(),
            i <= n,
        decreases n - i,
    {
        out.push(convert_rule_to_strings(&rules[i]));
        i = i + 1;
    }
    out
}

/// Interns the description: numbers the terminals and nonterminals and
/// resolves every rule call by first match, terminals first, reporting
/// the first name that is neither. Succeeds exactly when every call
/// resolves.
fn intern_grammar(parser_description: &ParserDescription) -> (r: Result<Grammar, GenError>)
    ensures
        match r {
            Ok(g) => {
                &&& interned(*parser_description, g)
                &&& all_defined(*parser_description)
                &&& g.terminals@.len() == parser_description.tokens@.len()
                &&& g.rules@.len() == parser_description.not_terminal@.len()
            },
            Err(e) => e is UndefinedSymbol && !all_defined(*parser_description),
        },
        all_defined(*parser_description) ==> r is Ok,
{
    let ghost pd = *parser_description;
    let mut terminals: Vec<String> = Vec::new();
    let ntok = parser_description.tokens.len();
    let mut i: usize = 0;
    while i < ntok
        invariant
            pd == *parser_description,
            ntok == pd.tokens@.len(),
            i <= ntok,
            terminals@.len() == i,
            forall|k: int| 0 <= k < i ==> (#[trigger] terminals@[k])@ == term_names(pd)[k],
        decreases ntok - i,
    {
        terminals.push(parser_description.tokens[i].name.clone());
        i = i + 1;
    }
    proof {
        assert(names_view(terminals@) =~= term_names(pd));
    }
    let mut nts: Vec<String> = Vec::new();
    let nnt = parser_description.not_terminal.len();
    let mut a: usize = 0;
    while a < nnt
        invariant
            pd == *parser_description,
            nnt == pd.not_terminal@.len(),
            a <= nnt,
            nts@.len() == a,
            forall|k: int| 0 <= k < a ==> (#[trigger] nts@[k])@ == nt_names(pd)[k],
        decreases nnt - a,
    {
        nts.push(parser_description.not_terminal[a].name.clone());
        a = a + 1;
    }
    proof {
        assert(names_view(nts@) =~= nt_names(pd));
    }
    let mut rules: Vec<Vec<Vec<Sym>>> = Vec::new();
    let mut b: usize = 0;
    while b < nnt
        invariant
            pd == *parser_description,
            nnt == pd.not_terminal@.len(),
            ntok == pd.tokens@.len(),
            b <= nnt,
            rules@.len() == b,
            terminals@.len() == ntok,
            nts@.len() == nnt,
            names_view(terminals@) == term_names(pd),
            names_view(nts@) == nt_names(pd),
            forall|x: int|
                0 <= x < b ==> (#[trigger] rules@[x])@.len()
                    == pd.not_terminal@[x].rules@.len(),
            forall|x: int, y: int|
                0 <= x < b && 0 <= y < rules@[x]@.len() ==> (#[trigger] rules@[x]@[y])@.len()
                    == rule_call_names(pd.not_terminal@[x].rules@[y].members@, 0).len(),
            forall|x: int, y: int, z: int|
                0 <= x < b && 0 <= y < rules@[x]@.len() && 0 <= z < rules@[x]@[y]@.len() ==> (
                #[trigger] rules@[x]@[y]@[z]) == sym_of(
                    pd,
                    rule_call_names(pd.not_terminal@[x].rules@[y].members@, 0)[z],
                ),
            forall|x: int, y: int, z: int|
                0 <= x < b && 0 <= y < rules@[x]@.len() && 0 <= z < rules@[x]@[y]@.len()
                    ==> (match #[trigger] rules@[x]@[y]@[z] {
                    Sym::T(k) => k < ntok,
                    Sym::N(j) => j < nnt,
                }),
            forall|x: int, y: int, z: int|
                0 <= x < b && 0 <= y < pd.not_terminal@[x].rules@.len() && 0 <= z
                    < rule_call_names(pd.not_terminal@[x].rules@[y].members@, 0).len() ==> defined(
                    pd,
                    #[trigger] rule_call_names(pd.not_terminal@[x].rules@[y].members@, 0)[z],
                ),
        decreases nnt - b,
    {
        let nr = parser_description.not_terminal[b].rules.len();
        let mut body: Vec<Vec<Sym>> = Vec::new();
        let mut rr: usize = 0;
        while rr < nr
            invariant
                pd == *parser_description,
                nnt == pd.not_terminal@.len(),
                ntok == pd.tokens@.len(),
                b < nnt,
                nr == pd.not_terminal@[b as int].rules@.len(),
                rr <= nr,
                body@.len() == rr,
                terminals@.len() == ntok,
                nts@.len() == nnt,
                names_view(terminals@) == term_names(pd),
                names_view(nts@) == nt_names(pd),
                forall|y: int|
                    0 <= y < rr ==> (#[trigger] body@[y])@.len() == rule_call_names(
                        pd.not_terminal@[b as int].rules@[y].members@,
                        0,
                    ).len(),
                forall|y: int, z: int|
                    0 <= y < rr && 0 <= z < body@[y]@.len() ==> (#[trigger] body@[y]@[z])
                        == sym_of(
                        pd,
                        rule_call_names(pd.not_terminal@[b as int].rules@[y].members@, 0)[z],
                    ),
                forall|y: int, z: int|
                    0 <= y < rr && 0 <= z < body@[y]@.len() ==> (match #[trigger] body@[y]@[z] {
                        Sym::T(k) => k < ntok,
                        Sym::N(j) => j < nnt,
                    }),
                forall|y: int, z: int|
                    0 <= y < rr && 0 <= z < rule_call_names(
                        pd.not_terminal@[b as int].rules@[y].members@,
                        0,
                    ).len() ==> defined(
                        pd,
                        #[trigger] rule_call_names(
                            pd.not_terminal@[b as int].rules@[y].members@,
                            0,
                        )[z],
                    ),
            decreases nr - rr,
        {
            let names = convert_rule_to_strings(&parser_description.not_terminal[b].rules[rr]);
            let ghost rcn = rule_call_names(pd.not_terminal@[b as int].rules@[rr as int].members@, 0);
            let mut syms: Vec<Sym> = Vec::new();
            let nm = names.len();
            let mut m: usize = 0;
            while m < nm
                invariant
                    pd == *parser_description,
                    nnt == pd.not_terminal@.len(),
                    ntok == pd.tokens@.len(),
                    b < nnt,
                    rr < nr,
                    nr == pd.not_terminal@[b as int].rules@.len(),
                    nm == names@.len(),
                    m <= nm,
                    rcn == rule_call_names(
                        pd.not_terminal@[b as int].rules@[rr as int].members@,
                        0,
                    ),
                    names_view(names@) == rcn,
                    rcn.len() == nm,
                    terminals@.len() == ntok,
                    nts@.len() == nnt,
                    names_view(terminals@) == term_names(pd),
                    names_view(nts@) == nt_names(pd),
                    syms@.len() == m,
                    forall|z: int|
                        0 <= z < m ==> (#[trigger] syms@[z]) == sym_of(pd, rcn[z]),
                    forall|z: int|
                        0 <= z < m ==> (match #[trigger] syms@[z] {
                            Sym::T(k) => k < ntok,
                            Sym::N(j) => j < nnt,
                        }),
                    forall|z: int| 0 <= z < m ==> defined(pd, #[trigger] rcn[z]),
                decreases nm - m,
            {
                proof {
                    assert(rcn[m as int] == names@[m as int]@);
                }
                match lookup(&terminals, &names[m]) {
                    Some(k) => {
                        syms.push(Sym::T(k));
                    },
                    None => {
                        match lookup(&nts, &names[m]) {
                            Some(j) => {
                                syms.push(Sym::N(j));
                            },
                            None => {
                                proof {
                                    assert(!defined(pd, rcn[m as int]));
                                    assert(!all_defined(pd)) by {
                                        if all_defined(pd) {
                                            assert(defined(pd, rule_call_names(
                                                pd.not_terminal@[b as int].rules@[rr as int].members@,
                                                0,
                                            )[m as int]));
                                        }
                                    }
                                }
                                return Err(
                                    GenError::UndefinedSymbol { name: names[m].clone() },
                                );
                            },
                        }
                    },
                }
                m = m + 1;
            }
            body.push(syms);
            rr = rr + 1;
        }
        rules.push(body);
        b = b + 1;
    }
    let g = Grammar { terminals, nts, rules };
    proof {
        assert(g_wf(g));
        assert(interned(pd, g));
        assert(all_defined(pd));
    }
    Ok(g)
}

// ---------------------------------------------------------------------------
// Emission.
// ---------------------------------------------------------------------------
/// The views of a list of names.
pub open spec fn names_view(v: Seq<String>) -> Seq<Seq<char>> {
    v.map_values(|s: String| s@)
}

/// The views of a list of name lists.
pub open spec fn rets_view(v: Seq<Vec<String>>) -> Seq<Seq<Seq<char>>> {
    v.map_values(|x: Vec<String>| names_view(x@))
}

/// The declared terminal names, in order.
pub open spec fn term_names(pd: ParserDescription) -> Seq<Seq<char>> {
    pd.tokens@.map_values(|t: crate::parser_description::Token| t.name@)
}

/// The declared nonterminal names, in order.
pub open spec fn nt_names(pd: ParserDescription) -> Seq<Seq<char>> {
    pd.not_terminal@.map_values(|nt: NotTerminal| nt.name@)
}

/// The synthesized-attribute names of a declaration, in order.
pub open spec fn ret_names(nt: NotTerminal) -> Seq<Seq<char>> {
    nt.returns@.map_values(|t: Typed| t.name@)
}

/// The first index carrying `name`, scanning from `i`.
pub open spec fn lookup_spec(names: Seq<Seq<char>>, name: Seq<char>, i: int) -> Option<int>
    decreases names.len() - i,
{
    if 0 <= i < names.len() {
        if names[i] == name {
            Some(i)
        } else {
            lookup_spec(names, name, i + 1)
        }
    } else {
        None
    }
}

/// The comma-joined tuple components from index `i` on, each prefixed.
pub open spec fn tuple_items(prefix: Seq<char>, names: Seq<Seq<char>>, i: int) -> Seq<char>
    decreases names.len() - i,
{
    if 0 <= i < names.len() {
        (if i > 0 {
            ","@
        } else {
            Seq::empty()
        }) + prefix + names[i] + tuple_items(prefix, names, i + 1)
    } else {
        Seq::empty()
    }
}

/// `(p a,p b,...)` over the given names.
pub open spec fn tuple_text(prefix: Seq<char>, names: Seq<Seq<char>>) -> Seq<char> {
    "("@ + tuple_items(prefix, names, 0) + ")"@
}

/// The `|`-joined arm patterns of a predictive set, from column `t` on;
/// `any` records whether a pattern was already written. The end-of-input
/// pattern closes the arm when the set carries the marker.
pub open spec fn match_arms_items(
    names: Seq<Seq<char>>,
    pred: Seq<bool>,
    t: int,
    any: bool,
) -> Seq<char>
    decreases names.len() - t,
{
    if 0 <= t < names.len() {
        if pred[t] {
            (if any {
                "|"@
            } else {
                Seq::empty()
            }) + "Token::"@ + names[t] + "(_)"@ + match_arms_items(names, pred, t + 1, true)
        } else {
            match_arms_items(names, pred, t + 1, any)
        }
    } else {
        if 0 <= names.len() < pred.len() && pred[names.len() as int] {
            (if any {
                "|"@
            } else {
                Seq::empty()
            }) + "Token::Eof"@
        } else {
            Seq::empty()
        }
    }
}

/// `name:type` of a typed attribute.
pub open spec fn typed_str(t: Typed) -> Seq<char> {
    t.name@ + ":"@ + t.ty@
}

/// `name:type,` pairs from index `i` on.
pub open spec fn args_items(args: Seq<Typed>, i: int) -> Seq<char>
    decreases args.len() - i,
{
    if 0 <= i < args.len() {
        typed_str(args[i]) + ","@ + args_items(args, i + 1)
    } else {
        Seq::empty()
    }
}

/// A parameter list: the prefix, the typed pairs, and the closing paren.
pub open spec fn input_args_text(prefix: Seq<char>, args: Seq<Typed>) -> Seq<char> {
    prefix + args_items(args, 0) + ")"@
}

/// `let mut name:type;` declarations from index `i` on.
pub open spec fn init_items(args: Seq<Typed>, i: int) -> Seq<char>
    decreases args.len() - i,
{
    if 0 <= i < args.len() {
        "let mut "@ + typed_str(args[i]) + ";"@ + init_items(args, i + 1)
    } else {
        Seq::empty()
    }
}

/// The comma-joined type texts from index `i` on.
pub open spec fn rettype_items(args: Seq<Typed>, i: int) -> Seq<char>
    decreases args.len() - i,
{
    if 0 <= i < args.len() {
        (if i > 0 {
            ","@
        } else {
            Seq::empty()
        }) + args[i].ty@ + rettype_items(args, i + 1)
    } else {
        Seq::empty()
    }
}

/// `Result<(GraphVizNode, (types)),ParseError>` for a returns list.
pub open spec fn rettype_text(args: Seq<Typed>) -> Seq<char> {
    "Result<(GraphVizNode, ("@ + rettype_items(args, 0) + ")),ParseError>"@
}

/// The value names a callee hands back: `ident` for a terminal, the
/// declared synthesized names for a nonterminal.
pub open spec fn map_rets_spec(pd: ParserDescription) -> Seq<Seq<Seq<char>>> {
    pd.tokens@.map_values(|t: crate::parser_description::Token| seq!["ident"@])
        + pd.not_terminal@.map_values(|nt: NotTerminal| ret_names(nt))
}

/// The callee names of the return map: terminals first, then
/// nonterminals, in declaration order.
pub open spec fn map_names_spec(pd: ParserDescription) -> Seq<Seq<char>> {
    term_names(pd) + nt_names(pd)
}

/// The binding tuple of one call member: the callee's return names, each
/// prefixed by the callee's name and the member's index.
pub open spec fn member_rets_text(
    names: Seq<Seq<char>>,
    retss: Seq<Seq<Seq<char>>>,
    callee: Seq<char>,
    prefix: Seq<char>,
) -> Seq<char> {
    match lookup_spec(names, callee, 0) {
        Some(k) => tuple_text(prefix, retss[k]),
        None => "()"@,
    }
}

/// The statement text of one member: a call with its bindings and child
/// push, or a verbatim command fragment.
pub open spec fn member_text(
    m: RuleMember,
    i: int,
    names: Seq<Seq<char>>,
    retss: Seq<Seq<Seq<char>>>,
) -> Seq<char> {
    match m {
        RuleMember::RuleCall(rt) => {
            let prefix = rt.name@ + dec_digits(i as nat) + "_"@;
            "let (child, "@ + member_rets_text(names, retss, rt.name@, prefix) + ") = self."@
                + rt.name@ + rt.args@ + "?;
children.push(child);
"@
        },
        RuleMember::Command(c) => c@ + "
"@,
    }
}

/// The statements of an alternative from member `i` on.
pub open spec fn parsing_rule_items(
    members: Seq<RuleMember>,
    i: int,
    names: Seq<Seq<char>>,
    retss: Seq<Seq<Seq<char>>>,
) -> Seq<char>
    decreases members.len() - i,
{
    if 0 <= i < members.len() {
        member_text(members[i], i, names, retss) + parsing_rule_items(members, i + 1, names, retss)
    } else {
        Seq::empty()
    }
}

/// `(p a,p b,...)` over the given names, each with the prefix.
fn get_tuple(prefix: &str, idents: &Vec<String>) -> (r: String)
    ensures
        r@ == tuple_text(prefix@, names_view(idents@)),
{
    let ghost nv = names_view(idents@);
    let mut out = String::from_str("(");
    let n = idents.len();
    let mut i: usize = 0;
    while i < n
        invariant
            n == idents@.len(),
            i <= n,
            nv == names_view(idents@),
            nv.len() == n,
            tuple_text(prefix@, nv) == out@ + tuple_items(prefix@, nv, i as int) + ")"@,
        decreases n - i,
    {
        if i > 0 {
            out.append(",");
        }
        out.append(prefix);
        out.append(idents[i].as_str());
        proof {
            assert(nv[i as int] == idents@[i as int]@);
            assert(tuple_text(prefix@, nv) =~= out@ + tuple_items(prefix@, nv, i + 1) + ")"@);
        }
        i = i + 1;
    }
    out.append(")");
    proof {
        assert(out@ =~= tuple_text(prefix@, nv));
    }
    out
}

/// The `Token::A(_)|Token::B(_)` arm pattern for a predictive set, in
/// declaration order, with the end-of-input pattern last.
fn get_tokens_for_match(pred: &Vec<bool>, grammar: &Grammar) -> (r: String)
    requires
        pred@.len() == width(*grammar),
    ensures
        r@ == match_arms_items(names_view(grammar.terminals@), pred@, 0, false),
{
    let ghost nv = names_view(grammar.terminals@);
    let mut out = String::new();
    let mut any = false;
    let ntok = grammar.terminals.len();
    let mut t: usize = 0;
    while t < ntok
        invariant
            ntok == grammar.terminals@.len(),
            pred@.len() == width(*grammar),
            t <= ntok,
            nv == names_view(grammar.terminals@),
            nv.len() == ntok,
            match_arms_items(nv, pred@, 0, false) == out@ + match_arms_items(
                nv,
                pred@,
                t as int,
                any,
            ),
        decreases ntok - t,
    {
        if pred[t] {
            if any {
                out.append("|");
            }
            out.append("Token::");
            out.append(grammar.terminals[t].as_str());
            out.append("(_)");
            proof {
                assert(nv[t as int] == grammar.terminals@[t as int]@);
                assert(match_arms_items(nv, pred@, 0, false) =~= out@ + match_arms_items(
                    nv,
                    pred@,
                    t + 1,
                    true,
                ));
            }
            any = true;
        } else {
            proof {
                assert(match_arms_items(nv, pred@, t as int, any) == match_arms_items(
                    nv,
                    pred@,
                    t + 1,
                    any,
                ));
            }
        }
        t = t + 1;
    }
    if pred[ntok] {
        if any {
            out.append("|");
        }
        out.append("Token::Eof");
        any = true;
    }
    proof {
        assert(out@ =~= match_arms_items(nv, pred@, 0, false));
    }
    out
}

/// The names of the values a callee hands back: one `ident` for a
/// terminal, the declared synthesized names for a nonterminal.
fn get_return_map(parser_description: &ParserDescription) -> (r: (Vec<String>, Vec<Vec<String>>))
    ensures
        r.0@.len() == r.1@.len(),
        names_view(r.0@) == map_names_spec(*parser_description),
        rets_view(r.1@) == map_rets_spec(*parser_description),
{
    let mut names: Vec<String> = Vec::new();
    let mut rets: Vec<Vec<String>> = Vec::new();
    let ntok = parser_description.tokens.len();
    let mut i: usize = 0;
    while i < ntok
        invariant
            ntok == parser_description.tokens@.len(),
            i <= ntok,
            names@.len() == i,
            rets@.len() == i,
            forall|k: int|
                0 <= k < i ==> (#[trigger] names@[k])@ == term_names(*parser_description)[k],
            forall|k: int|
                0 <= k < i ==> names_view((#[trigger] rets@[k])@) =~= seq!["ident"@],
        decreases ntok - i,
    {
        names.push(parser_description.tokens[i].name.clone());
        let mut one: Vec<String> = Vec::new();
        one.push(String::from_str("ident"));
        proof {
            assert(names_view(one@) =~= seq!["ident"@]);
        }
        rets.push(one);
        i = i + 1;
    }
    let nnt = parser_description.not_terminal.len();
    let mut a: usize = 0;
    while a < nnt
        invariant
            ntok == parser_description.tokens@.len(),
            nnt == parser_description.not_terminal@.len(),
            a <= nnt,
            names@.len() == ntok + a,
            rets@.len() == ntok + a,
            forall|k: int|
                0 <= k < ntok ==> (#[trigger] names@[k])@ == term_names(*parser_description)[k],
            forall|k: int|
                0 <= k < ntok ==> names_view((#[trigger] rets@[k])@) =~= seq!["ident"@],
            forall|k: int|
                0 <= k < a ==> (#[trigger] names@[ntok + k])@ == nt_names(*parser_description)[k],
            forall|k: int|
                0 <= k < a ==> names_view((#[trigger] rets@[ntok + k])@) =~= ret_names(
                    parser_description.not_terminal@[k],
                ),
        decreases nnt - a,
    {
        names.push(parser_description.not_terminal[a].name.clone());
        let mut rs: Vec<String> = Vec::new();
        let nr = parser_description.not_terminal[a].returns.len();
        let mut k: usize = 0;
        while k < nr
            invariant
                nnt == parser_description.not_terminal@.len(),
                a < nnt,
                nr == parser_description.not_terminal@[a as int].returns@.len(),
                k <= nr,
                rs@.len() == k,
                forall|j: int|
                    0 <= j < k ==> (#[trigger] rs@[j])@ == ret_names(
                        parser_description.not_terminal@[a as int],
                    )[j],
            decreases nr - k,
        {
            rs.push(parser_description.not_terminal[a].returns[k].name.clone());
            k = k + 1;
        }
        proof {
            assert(names_view(rs@) =~= ret_names(parser_description.not_terminal@[a as int]));
        }
        rets.push(rs);
        a = a + 1;
    }
    proof {
        let pd = *parser_description;
        assert forall|k: int| 0 <= k < names@.len() implies #[trigger] names_view(names@)[k]
            == map_names_spec(pd)[k] by {
            assert(names_view(names@)[k] == names@[k]@);
            if k < ntok {
                assert(map_names_spec(pd)[k] == term_names(pd)[k]);
                assert(names@[k]@ == term_names(pd)[k]);
            } else {
                let k2 = k - ntok;
                assert(map_names_spec(pd)[k] == nt_names(pd)[k2]);
                assert(names@[ntok + k2]@ == nt_names(pd)[k2]);
                assert(names@[k] == names@[ntok + k2]);
            }
        }
        assert(names_view(names@) =~= map_names_spec(pd));
        assert forall|k: int| 0 <= k < rets@.len() implies #[trigger] rets_view(rets@)[k]
            =~= map_rets_spec(pd)[k] by {
            assert(rets_view(rets@)[k] == names_view(rets@[k]@));
            if k < ntok {
                assert(map_rets_spec(pd)[k] == seq!["ident"@]);
                assert(names_view(rets@[k]@) =~= seq!["ident"@]);
            } else {
                let k2 = k - ntok;
                assert(map_rets_spec(pd)[k] == ret_names(pd.not_terminal@[k2]));
                assert(names_view(rets@[ntok + k2]@) =~= ret_names(pd.not_terminal@[k2]));
                assert(rets@[k] == rets@[ntok + k2]);
            }
        }
        assert(rets_view(rets@) =~~= map_rets_spec(pd));
    }
    (names, rets)
}

/// The statements of one alternative: member calls with their bindings in
/// order, and command fragments spliced verbatim.
fn get_parsing_rule(rule: &Rule, map: &(Vec<String>, Vec<Vec<String>>)) -> (r: String)
    requires
        map.0@.len() == map.1@.len(),
    ensures
        r@ == parsing_rule_items(rule.members@, 0, names_view(map.0@), rets_view(map.1@)),
{
    let ghost nv = names_view(map.0@);
    let ghost rv = rets_view(map.1@);
    let mut out = String::new();
    let n = rule.members.len();
    let mut i: usize = 0;
    while i < n
        invariant
            n == rule.members@.len(),
            i <= n,
            map.0@.len() == map.1@.len(),
            nv == names_view(map.0@),
            rv == rets_view(map.1@),
            parsing_rule_items(rule.members@, 0, nv, rv) == out@ + parsing_rule_items(
                rule.members@,
                i as int,
                nv,
                rv,
            ),
        decreases n - i,
    {
        match &rule.members[i] {
            RuleMember::RuleCall(rt) => {
                let mut prefix = rt.name.clone();
                push_decimal(&mut prefix, i as u128);
                prefix.append("_");
                let rets = match lookup(&map.0, &rt.name) {
                    Some(k) => {
                        proof {
                            assert(rv[k as int] == names_view(map.1@[k as int]@));
                        }
                        get_tuple(prefix.as_str(), &map.1[k])
                    },
                    None => String::from_str("()"),
                };
                out.append("let (child, ");
                out.append(rets.as_str());
                out.append(") = self.");
                out.append(rt.name.as_str());
                out.append(rt.args.as_str());
                out.append("?;\nchildren.push(child);\n");
                proof {
                    assert(parsing_rule_items(rule.members@, 0, nv, rv) =~= out@
                        + parsing_rule_items(rule.members@, i + 1, nv, rv));
                }
            },
            RuleMember::Command(c) => {
                out.append(c.as_str());
                out.append("\n");
                proof {
                    assert(parsing_rule_items(rule.members@, 0, nv, rv) =~= out@
                        + parsing_rule_items(rule.members@, i + 1, nv, rv));
                }
            },
        }
        i = i + 1;
    }
    proof {
        assert(out@ =~= parsing_rule_items(rule.members@, 0, nv, rv));
    }
    out
}

/// `name:type` texts of a typed list, in order.
fn get_typed_strings(args: &Vec<Typed>) -> (r: Vec<String>)
    ensures
        r@.len() == args@.len(),
        forall|j: int| 0 <= j < r@.len() ==> (#[trigger] r@[j])@ == typed_str(args@[j]),
{
    let mut out: Vec<String> = Vec::new();
    let n = args.len();
    let mut i: usize = 0;
    while i < n
        invariant
            n == args@.len(),
            i <= n,
            out@.len() == i,
            forall|j: int| 0 <= j < i ==> (#[trigger] out@[j])@ == typed_str(args@[j]),
        decreases n - i,
    {
        let mut sv = args[i].name.clone();
        sv.append(":");
        sv.append(args[i].ty.as_str());
        out.push(sv);
        i = i + 1;
    }
    out
}

fn get_input_args_with_prefix(args: &Vec<Typed>, prefix: &str) -> (r: String)
    ensures
        r@ == input_args_text(prefix@, args@),
{
    let parts = get_typed_strings(args);
    let mut out = String::from_str(prefix);
    let n = parts.len();
    let mut i: usize = 0;
    while i < n
        invariant
            n == parts@.len(),
            n == args@.len(),
            i <= n,
            forall|j: int| 0 <= j < n ==> (#[trigger] parts@[j])@ == typed_str(args@[j]),
            input_args_text(prefix@, args@) == out@ + args_items(args@, i as int) + ")"@,
        decreases n - i,
    {
        out.append(parts[i].as_str());
        out.append(",");
        proof {
            assert(input_args_text(prefix@, args@) =~= out@ + args_items(args@, i + 1) + ")"@);
        }
        i = i + 1;
    }
    out.append(")");
    proof {
        assert(out@ =~= input_args_text(prefix@, args@));
    }
    out
}

fn get_input_args_without_self(args: &Vec<Typed>) -> (r: String)
    ensures
        r@ == input_args_text("("@, args@),
{
    get_input_args_with_prefix(args, "(")
}

fn get_input_args_with_self(args: &Vec<Typed>) -> (r: String)
    ensures
        r@ == input_args_text("(&mut self,"@, args@),
{
    get_input_args_with_prefix(args, "(&mut self,")
}

/// `let mut name:type;` declarations for the synthesized values.
fn get_return_init(args: &Vec<Typed>) -> (r: String)
    ensures
        r@ == init_items(args@, 0),
{
    let parts = get_typed_strings(args);
    let mut out = String::new();
    let n = parts.len();
    let mut i: usize = 0;
    while i < n
        invariant
            n == parts@.len(),
            n == args@.len(),
            i <= n,
            forall|j: int| 0 <= j < n ==> (#[trigger] parts@[j])@ == typed_str(args@[j]),
            init_items(args@, 0) == out@ + init_items(args@, i as int),
        decreases n - i,
    {
        out.append("let mut ");
        out.append(parts[i].as_str());
        out.append(";");
        proof {
            assert(init_items(args@, 0) =~= out@ + init_items(args@, i + 1));
        }
        i = i + 1;
    }
    proof {
        assert(out@ =~= init_items(args@, 0));
    }
    out
}

/// `Result<(GraphVizNode, (types)),ParseError>` for a returns list.
fn get_return_type(tuple_args: &Vec<Typed>) -> (r: String)
    ensures
        r@ == rettype_text(tuple_args@),
{
    let mut out = String::from_str("Result<(GraphVizNode, (");
    let n = tuple_args.len();
    let mut i: usize = 0;
    while i < n
        invariant
            n == tuple_args@.len(),
            i <= n,
            rettype_text(tuple_args@) == out@ + rettype_items(tuple_args@, i as int)
                + ")),ParseError>"@,
        decreases n - i,
    {
        if i > 0 {
            out.append(",");
        }
        out.append(tuple_args[i].ty.as_str());
        proof {
            assert(rettype_text(tuple_args@) =~= out@ + rettype_items(tuple_args@, i + 1)
                + ")),ParseError>"@);
        }
        i = i + 1;
    }
    out.append(")),ParseError>");
    proof {
        assert(out@ =~= rettype_text(tuple_args@));
    }
    out
}

/// The text of one terminal's consume-and-wrap procedure.
pub open spec fn token_parse_text(name: Seq<char>) -> Seq<char> {
    "\n    fn "@ + name
        + "(&mut self) -> Result<(GraphVizNode, (String)), ParseError> {\n        let pos = self.pointer;\n        match &self.tokens[pos] {\n            Token::"@
        + name
        + "(s) => {\n                let s = s.clone();\n                let id = self.counter.to_string();\n                self.pointer += 1;\n                self.counter += 1;\n                Ok((GraphVizNode::new_leaf(id, \""@
        + name
        + "\".to_string()), s))\n            }\n            _ => Err(ParseError{position: pos, message: \"Expected "@
        + name + "\".to_string()}),\n        }\n    }\n   "@
}

/// The consume-and-wrap procedure of one terminal: the cursor and the
/// node counter advance only when the lookahead matches.
fn generate_token_parse(terminal: &str) -> (r: String)
    ensures
        r@ == token_parse_text(terminal@),
{
    let mut out = String::from_str("\n    fn ");
    out.append(terminal);
    out.append(
        "(&mut self) -> Result<(GraphVizNode, (String)), ParseError> {\n        let pos = self.pointer;\n        match &self.tokens[pos] {\n            Token::",
    );
    out.append(terminal);
    out.append(
        "(s) => {\n                let s = s.clone();\n                let id = self.counter.to_string();\n                self.pointer += 1;\n                self.counter += 1;\n                Ok((GraphVizNode::new_leaf(id, \"",
    );
    out.append(terminal);
    out.append(
        "\".to_string()), s))\n            }\n            _ => Err(ParseError{position: pos, message: \"Expected ",
    );
    out.append(terminal);
    out.append("\".to_string()}),\n        }\n    }\n   ");
    proof {
        assert(out@ =~= token_parse_text(terminal@));
    }
    out
}

/// The consume-and-wrap procedures of the terminals from index `i` on,
/// closed by the end-of-input procedure.
pub open spec fn tokens_parse_items(names: Seq<Seq<char>>, i: int) -> Seq<char>
    decreases names.len() - i,
{
    if 0 <= i < names.len() {
        token_parse_text(names[i]) + tokens_parse_items(names, i + 1)
    } else {
        "\n    fn Eof(&mut self) -> Result<(String, GraphVizNode), ParseError> {\n        let pos = self.pointer;\n        match &self.tokens[pos] {\n            Token::Eof => {\n                let id = self.counter.to_string();\n                self.pointer += 1;\n                self.counter += 1;\n                Ok((\"Eof\".to_string(), GraphVizNode::new_leaf(id, \"Eof\".to_string())))\n            }\n            _ => Err(ParseError{position: pos, message: \"Expected eof\".to_string()})\n        }\n    }\n"@
    }
}

/// The consume-and-wrap procedures of all terminals, and of the
/// end-of-input marker.
fn generate_tokens_parse(grammar: &Grammar) -> (r: String)
    ensures
        r@ == tokens_parse_items(names_view(grammar.terminals@), 0),
{
    let ghost nv = names_view(grammar.terminals@);
    let mut out = String::new();
    let n = grammar.terminals.len();
    let mut t: usize = 0;
    while t < n
        invariant
            n == grammar.terminals@.len(),
            t <= n,
            nv == names_view(grammar.terminals@),
            nv.len() == n,
            tokens_parse_items(nv, 0) == out@ + tokens_parse_items(nv, t as int),
        decreases n - t,
    {
        let piece = generate_token_parse(grammar.terminals[t].as_str());
        out.append(piece.as_str());
        proof {
            assert(nv[t as int] == grammar.terminals@[t as int]@);
            assert(tokens_parse_items(nv, 0) =~= out@ + tokens_parse_items(nv, t + 1));
        }
        t = t + 1;
    }
    out.append(
        "\n    fn Eof(&mut self) -> Result<(String, GraphVizNode), ParseError> {\n        let pos = self.pointer;\n        match &self.tokens[pos] {\n            Token::Eof => {\n                let id = self.counter.to_string();\n                self.pointer += 1;\n                self.counter += 1;\n                Ok((\"Eof\".to_string(), GraphVizNode::new_leaf(id, \"Eof\".to_string())))\n            }\n            _ => Err(ParseError{position: pos, message: \"Expected eof\".to_string()})\n        }\n    }\n",
    );
    proof {
        assert(out@ =~= tokens_parse_items(nv, 0));
    }
    out
}

/// The predictive set of alternative `r` of nonterminal `a`: its FIRST
/// set without the empty word, extended by FOLLOW of `a` when the
/// alternative can be empty.
pub open spec fn pred_has(
    g: Grammar,
    fstv: Seq<Seq<bool>>,
    fov: Seq<Seq<bool>>,
    a: int,
    r: int,
    t: int,
) -> bool {
    &&& 0 <= t < width(g)
    &&& t != eps_i(g)
    &&& (rf_has(g, fstv, g.rules@[a]@[r]@, 0, t) || (rf_has(
        g,
        fstv,
        g.rules@[a]@[r]@,
        0,
        eps_i(g),
    ) && fov[a][t]))
}

pub open spec fn pred_row(
    g: Grammar,
    fstv: Seq<Seq<bool>>,
    fov: Seq<Seq<bool>>,
    a: int,
    r: int,
) -> Seq<bool> {
    Seq::new(width(g) as nat, |t: int| pred_has(g, fstv, fov, a, r, t))
}

/// The dispatch arm of one alternative: its predictive patterns and its
/// member statements. An alternative whose predictive set is empty is
/// left out.
pub open spec fn rule_arm_text(
    g: Grammar,
    fstv: Seq<Seq<bool>>,
    fov: Seq<Seq<bool>>,
    pd: ParserDescription,
    a: int,
    r: int,
) -> Seq<char> {
    let pr = pred_row(g, fstv, fov, a, r);
    if exists|t: int| 0 <= t < pr.len() && pr[t] {
        match_arms_items(names_view(g.terminals@), pr, 0, false) + "=> {\n"@
            + parsing_rule_items(
            pd.not_terminal@[a].rules@[r].members@,
            0,
            map_names_spec(pd),
            map_rets_spec(pd),
        ) + "}\n"@
    } else {
        Seq::empty()
    }
}

pub open spec fn arms_items(
    g: Grammar,
    fstv: Seq<Seq<bool>>,
    fov: Seq<Seq<bool>>,
    pd: ParserDescription,
    a: int,
    r: int,
) -> Seq<char>
    decreases pd.not_terminal@[a].rules@.len() - r,
{
    if 0 <= r < pd.not_terminal@[a].rules@.len() {
        rule_arm_text(g, fstv, fov, pd, a, r) + arms_items(g, fstv, fov, pd, a, r + 1)
    } else {
        Seq::empty()
    }
}

/// The emitted procedure of nonterminal `a`: its signature over the
/// inherited attributes, the synthesized-value declarations, the node
/// bookkeeping, the dispatch on the lookahead with one arm per
/// alternative in declaration order, the mismatch arm, and the built
/// node with the synthesized tuple.
pub open spec fn nt_text(
    g: Grammar,
    fstv: Seq<Seq<bool>>,
    fov: Seq<Seq<bool>>,
    pd: ParserDescription,
    a: int,
) -> Seq<char> {
    let nt = pd.not_terminal@[a];
    "fn "@ + nt.name@ + input_args_text("(&mut self,"@, nt.args@) + " -> "@ + rettype_text(
        nt.returns@,
    ) + " {\n"@ + init_items(nt.returns@, 0) + "\n"@ + "let id = self.counter.to_string();\n"@
        + "let mut children: Vec<GraphVizNode> = Vec::new();\n"@ + "self.counter += 1;\n"@
        + "let token = &self.tokens[self.pointer];\n"@ + "match token {\n"@ + arms_items(
        g,
        fstv,
        fov,
        pd,
        a,
        0,
    )
        + "_ => return Err(ParseError{position: self.pointer, message: \"Can't match rule\".to_string()})\n"@
        + "}\n"@ + "Ok((GraphVizNode::new_node(id, \""@ + nt.name@ + "\".to_string(), children),"@
        + tuple_text(""@, ret_names(nt)) + "))\n"@ + "}\n\n"@
}

pub open spec fn rules_items(
    g: Grammar,
    fstv: Seq<Seq<bool>>,
    fov: Seq<Seq<bool>>,
    pd: ParserDescription,
    a: int,
) -> Seq<char>
    decreases pd.not_terminal@.len() - a,
{
    if 0 <= a < pd.not_terminal@.len() {
        nt_text(g, fstv, fov, pd, a) + rules_items(g, fstv, fov, pd, a + 1)
    } else {
        Seq::empty()
    }
}

/// The procedures of all nonterminals: each dispatches on the lookahead
/// against the predictive set of every alternative.
#[verifier::rlimit(80)]
fn generate_rules(
    grammar: &Grammar,
    parser_description: &ParserDescription,
    first: &Vec<Vec<bool>>,
    follow: &Vec<Vec<bool>>,
) -> (r: String)
    requires
        g_wf(*grammar),
        fam_wf(*grammar, fam_view(first@)),
        fam_wf(*grammar, fam_view(follow@)),
        grammar.rules@.len() == parser_description.not_terminal@.len(),
        forall|a: int|
            0 <= a < grammar.rules@.len() ==> (#[trigger] grammar.rules@[a])@.len()
                == parser_description.not_terminal@[a].rules@.len(),
    ensures
        r@ == rules_items(*grammar, fam_view(first@), fam_view(follow@), *parser_description, 0),
{
    let ghost g = *grammar;
    let ghost pd = *parser_description;
    let ghost fstv = fam_view(first@);
    let ghost fov = fam_view(follow@);
    let mut out = String::new();
    let map = get_return_map(parser_description);
    let n = parser_description.not_terminal.len();
    let mut a: usize = 0;
    while a < n
        invariant
            g == *grammar,
            pd == *parser_description,
            fstv == fam_view(first@),
            fov == fam_view(follow@),
            g_wf(g),
            fam_wf(g, fstv),
            fam_wf(g, fov),
            n == pd.not_terminal@.len(),
            g.rules@.len() == n,
            forall|x: int|
                0 <= x < n ==> (#[trigger] g.rules@[x])@.len()
                    == pd.not_terminal@[x].rules@.len(),
            a <= n,
            map.0@.len() == map.1@.len(),
            names_view(map.0@) == map_names_spec(pd),
            rets_view(map.1@) == map_rets_spec(pd),
            rules_items(g, fstv, fov, pd, 0) == out@ + rules_items(g, fstv, fov, pd, a as int),
        decreases n - a,
    {
        let ghost base = out@;
        let nt = &parser_description.not_terminal[a];
        out.append("fn ");
        out.append(nt.name.as_str());
        let args_text = get_input_args_with_self(&nt.args);
        out.append(args_text.as_str());
        out.append(" -> ");
        let ret_text = get_return_type(&nt.returns);
        out.append(ret_text.as_str());
        out.append(" {\n");
        let init_text = get_return_init(&nt.returns);
        out.append(init_text.as_str());
        out.append("\n");
        out.append("let id = self.counter.to_string();\n");
        out.append("let mut children: Vec<GraphVizNode> = Vec::new();\n");
        out.append("self.counter += 1;\n");
        out.append("let token = &self.tokens[self.pointer];\n");
        out.append("match token {\n");
        let ghost head = out@;
        let nr = nt.rules.len();
        let mut rr: usize = 0;
        while rr < nr
            invariant
                g == *grammar,
                pd == *parser_description,
                fstv == fam_view(first@),
                fov == fam_view(follow@),
                g_wf(g),
                fam_wf(g, fstv),
                fam_wf(g, fov),
                n == pd.not_terminal@.len(),
                g.rules@.len() == n,
                a < n,
                nr == pd.not_terminal@[a as int].rules@.len(),
                g.rules@[a as int]@.len() == nr,
                rr <= nr,
                map.0@.len() == map.1@.len(),
                names_view(map.0@) == map_names_spec(pd),
                rets_view(map.1@) == map_rets_spec(pd),
                head + arms_items(g, fstv, fov, pd, a as int, 0) == out@ + arms_items(
                    g,
                    fstv,
                    fov,
                    pd,
                    a as int,
                    rr as int,
                ),
            decreases nr - rr,
        {
            proof {
                assert(forall|k: int|
                    0 <= k < g.rules@[a as int]@[rr as int]@.len() ==> sym_ok(
                        g,
                        #[trigger] g.rules@[a as int]@[rr as int]@[k],
                    ));
                assert(fam_view(follow@)[a as int] == follow@[a as int]@);
            }
            let rf = get_first(&grammar.rules[a][rr], grammar, first);
            let wlen = rf.len();
            let eps = wlen - 1;
            let mut pred = empty_row(grammar);
            let mut t: usize = 0;
            while t < wlen
                invariant
                    g == *grammar,
                    fstv == fam_view(first@),
                    fov == fam_view(follow@),
                    wlen == rf@.len(),
                    wlen == pred@.len(),
                    wlen == width(g),
                    eps == wlen - 1,
                    eps == eps_i(g),
                    t <= wlen,
                    a < n,
                    rr < nr,
                    n == g.rules@.len(),
                    nr == g.rules@[a as int]@.len(),
                    fam_wf(g, fov),
                    fov.len() == n,
                    follow@[a as int]@.len() == wlen,
                    fov[a as int] == follow@[a as int]@,
                    forall|u: int|
                        0 <= u < wlen ==> #[trigger] rf@[u] == rf_has(
                            g,
                            fstv,
                            g.rules@[a as int]@[rr as int]@,
                            0,
                            u,
                        ),
                    forall|u: int|
                        0 <= u < t ==> #[trigger] pred@[u] == pred_has(
                            g,
                            fstv,
                            fov,
                            a as int,
                            rr as int,
                            u,
                        ),
                    forall|u: int| t <= u < wlen ==> !(#[trigger] pred@[u]),
                decreases wlen - t,
            {
                if t != eps {
                    if rf[t] || (rf[eps] && follow[a][t]) {
                        pred.set(t, true);
                    }
                }
                t = t + 1;
            }
            proof {
                assert(pred@ =~= pred_row(g, fstv, fov, a as int, rr as int));
            }
            let mut any = false;
            let mut u: usize = 0;
            while u < wlen
                invariant
                    wlen == pred@.len(),
                    u <= wlen,
                    any == exists|x: int| 0 <= x < u && #[trigger] pred@[x],
                decreases wlen - u,
            {
                if pred[u] {
                    any = true;
                    proof {
                        assert(pred@[u as int]);
                    }
                }
                proof {
                    if any {
                        assert(exists|x: int| 0 <= x < u + 1 && #[trigger] pred@[x]);
                    }
                }
                u = u + 1;
            }
            if any {
                let arm = get_tokens_for_match(&pred, grammar);
                out.append(arm.as_str());
                out.append("=> {\n");
                let body = get_parsing_rule(&parser_description.not_terminal[a].rules[rr], &map);
                out.append(body.as_str());
                out.append("}\n");
                proof {
                    assert(head + arms_items(g, fstv, fov, pd, a as int, 0) =~= out@ + arms_items(
                        g,
                        fstv,
                        fov,
                        pd,
                        a as int,
                        rr + 1,
                    ));
                }
            } else {
                proof {
                    assert(rule_arm_text(g, fstv, fov, pd, a as int, rr as int) == Seq::<
                        char,
                    >::empty());
                    assert(head + arms_items(g, fstv, fov, pd, a as int, 0) =~= out@ + arms_items(
                        g,
                        fstv,
                        fov,
                        pd,
                        a as int,
                        rr + 1,
                    ));
                }
            }
            rr = rr + 1;
        }
        out.append(
            "_ => return Err(ParseError{position: self.pointer, message: \"Can't match rule\".to_string()})\n",
        );
        out.append("}\n");
        let nt2 = &parser_description.not_terminal[a];
        out.append("Ok((GraphVizNode::new_node(id, \"");
        out.append(nt2.name.as_str());
        out.append("\".to_string(), children),");
        let mut retnames: Vec<String> = Vec::new();
        let nrn = nt2.returns.len();
        let mut k: usize = 0;
        while k < nrn
            invariant
                nrn == nt2.returns@.len(),
                k <= nrn,
                retnames@.len() == k,
                forall|j: int|
                    0 <= j < k ==> (#[trigger] retnames@[j])@ == nt2.returns@[j].name@,
            decreases nrn - k,
        {
            retnames.push(nt2.returns[k].name.clone());
            k = k + 1;
        }
        proof {
            assert(names_view(retnames@) =~= ret_names(pd.not_terminal@[a as int]));
        }
        let tuple = get_tuple("", &retnames);
        out.append(tuple.as_str());
        out.append("))\n");
        out.append("}\n\n");
        proof {
            assert(out@ =~= base + nt_text(g, fstv, fov, pd, a as int));
            assert(rules_items(g, fstv, fov, pd, 0) =~= out@ + rules_items(
                g,
                fstv,
                fov,
                pd,
                a + 1,
            ));
        }
        a = a + 1;
    }
    proof {
        assert(out@ =~= rules_items(g, fstv, fov, pd, 0));
    }
    out
}

/// `name,` items of a typed list have the same text wherever the list
/// stands inside a longer one.
proof fn lemma_args_items_tail(x: Typed, s2: Seq<Typed>, i: int)
    requires
        0 <= i,
    ensures
        args_items(seq![x] + s2, i + 1) == args_items(s2, i),
    decreases s2.len() - i,
{
    if i < s2.len() {
        lemma_args_items_tail(x, s2, i + 1);
        assert((seq![x] + s2)[i + 1] == s2[i]);
    }
}

/// The inherited-attribute names of a declaration, in order.
pub open spec fn arg_names(nt: NotTerminal) -> Seq<Seq<char>> {
    nt.args@.map_values(|t: Typed| t.name@)
}

/// The free `parse` entry point: a leading `input` parameter before the
/// start symbol's inherited attributes, tokenization, and the call of the
/// start procedure.
pub open spec fn parse_func_text(pd: ParserDescription, start: int) -> Seq<char> {
    let nt = pd.not_terminal@[start];
    "pub fn parse"@ + ("("@ + ("input"@ + ":"@ + "String"@ + ","@) + args_items(nt.args@, 0)
        + ")"@) + " -> "@ + rettype_text(nt.returns@)
        + " { Parser::new(Tokenizer::tokenize(input)?).S"@ + tuple_text(""@, arg_names(nt))
        + " }"@
}

/// The free entry point: tokenize, then run the start symbol.
fn generate_parse_func(parser_description: &ParserDescription, start: usize) -> (r: String)
    requires
        start < parser_description.not_terminal@.len(),
    ensures
        r@ == parse_func_text(*parser_description, start as int),
{
    let ghost nt0 = parser_description.not_terminal@[start as int];
    let startnt = &parser_description.not_terminal[start];
    let mut all_args: Vec<Typed> = Vec::new();
    all_args.push(
        Typed { name: String::from_str("input"), ty: String::from_str("String") },
    );
    let ghost input_typed = all_args@[0];
    let na = startnt.args.len();
    let mut i: usize = 0;
    while i < na
        invariant
            na == startnt.args@.len(),
            i <= na,
            all_args@.len() == 1 + i,
            all_args@[0] == input_typed,
            input_typed.name@ == "input"@,
            input_typed.ty@ == "String"@,
            forall|j: int| 0 <= j < i ==> all_args@[1 + j] == startnt.args@[j],
        decreases na - i,
    {
        all_args.push(
            Typed {
                name: startnt.args[i].name.clone(),
                ty: startnt.args[i].ty.clone(),
            },
        );
        i = i + 1;
    }
    proof {
        assert(all_args@ =~= seq![input_typed] + startnt.args@);
    }
    let mut out = String::from_str("pub fn parse");
    let sig = get_input_args_without_self(&all_args);
    out.append(sig.as_str());
    proof {
        lemma_args_items_tail(input_typed, startnt.args@, 0);
        assert(args_items(all_args@, 0) == typed_str(all_args@[0]) + ","@ + args_items(
            all_args@,
            1,
        ));
        assert(args_items(all_args@, 1) == args_items(startnt.args@, 0));
    }
    out.append(" -> ");
    let rt = get_return_type(&startnt.returns);
    out.append(rt.as_str());
    out.append(" { Parser::new(Tokenizer::tokenize(input)?).S");
    let mut argnames: Vec<String> = Vec::new();
    let mut k: usize = 0;
    while k < na
        invariant
            na == startnt.args@.len(),
            k <= na,
            argnames@.len() == k,
            forall|j: int| 0 <= j < k ==> (#[trigger] argnames@[j])@ == startnt.args@[j].name@,
        decreases na - k,
    {
        argnames.push(startnt.args[k].name.clone());
        k = k + 1;
    }
    proof {
        assert(names_view(argnames@) =~= arg_names(nt0));
    }
    let tup = get_tuple("", &argnames);
    out.append(tup.as_str());
    out.append(" }");
    proof {
        assert(out@ =~= parse_func_text(*parser_description, start as int));
    }
    out
}

/// The index of the start symbol's declaration.
pub open spec fn start_of(pd: ParserDescription) -> int {
    lookup_spec(nt_names(pd), "S"@, 0)->Some_0
}

/// The FIRST family of a grammar: the unique least family closed under
/// the FIRST equations.
pub open spec fn first_of(g: Grammar) -> Seq<Seq<bool>> {
    choose|fv: Seq<Seq<bool>>| least_closed_first(g, fv)
}

/// The FOLLOW family of a grammar: the unique least family closed under
/// the FOLLOW inclusions over its FIRST sets.
pub open spec fn follow_of(g: Grammar, start: int) -> Seq<Seq<bool>> {
    choose|fov: Seq<Seq<bool>>| least_closed_follow(g, first_of(g), start, fov)
}

/// The fixed parser-state text: the token vector, the cursor and the
/// node counter, with the constructor.
pub open spec fn parser_struct_text() -> Seq<char> {
    "\nstruct Parser {\n    tokens: Vec<Token>,\n    pointer: usize,\n    counter: usize,\n}\n\nimpl Parser {\n    fn new(tokens: Vec<Token>) -> Parser {\n        Parser{tokens, pointer: 0, counter: 0}\n    }\n}\n\n"@
}

/// The whole emitted parser: the state type, the terminal and
/// end-of-input procedures, one procedure per nonterminal, and the free
/// entry point.
pub open spec fn parser_text(
    g: Grammar,
    fstv: Seq<Seq<bool>>,
    fov: Seq<Seq<bool>>,
    pd: ParserDescription,
    start: int,
) -> Seq<char> {
    parser_struct_text() + "impl Parser {\n"@ + tokens_parse_items(names_view(g.terminals@), 0)
        + rules_items(g, fstv, fov, pd, 0) + "}"@ + parse_func_text(pd, start)
}

/// Does some nonterminal declaration carry the start symbol's name?
pub open spec fn has_start(pd: ParserDescription) -> bool {
    exists|i: int| 0 <= i < pd.not_terminal@.len() && (#[trigger] pd.not_terminal@[i]).name@ == "S"@
}

/// Does some terminal declaration carry the reserved end-of-input name?
pub open spec fn has_reserved(pd: ParserDescription) -> bool {
    exists|i: int| 0 <= i < pd.tokens@.len() && (#[trigger] pd.tokens@[i]).name@ == "Eof"@
}

/// Emits the parser: the parser-state type, one procedure per terminal
/// and per nonterminal, and the free entry point. The description is
/// validated on the way, in this order: a terminal may not take the
/// reserved end-of-input name; the start symbol must be declared; every
/// rule call must resolve; and the grammar must be LL(1). Each error
/// comes exactly when its condition holds, no valid description is
/// rejected, and the emitted text is stated exactly.
#[verifier::rlimit(60)]
pub fn generate_parser(parser_description: &ParserDescription) -> (r: Result<String, GenError>)
    ensures
        ({
            let pd = *parser_description;
            &&& (r matches Err(e) ==> !(e is MetaParse))
            &&& (r == Err::<String, GenError>(GenError::ReservedTerminal) <==> has_reserved(pd))
            &&& (r == Err::<String, GenError>(GenError::MissingStart) <==> (!has_reserved(pd)
                && !has_start(pd)))
            &&& ((r matches Err(e) && e is UndefinedSymbol) <==> (!has_reserved(pd) && has_start(
                pd,
            ) && !all_defined(pd)))
            &&& ((r matches Err(e) && e is NotLL1) ==> (!has_reserved(pd) && has_start(pd)
                && all_defined(pd) && (exists|g: Grammar|
                #[trigger] interned(pd, g) && !ll1_ok(
                    g,
                    first_of(g),
                    follow_of(g, start_of(pd)),
                ))))
            &&& (r matches Err(GenError::NotLL1 { nonterminal, alternatives }) ==> (exists|
                g: Grammar,
                a: int,
            |
                #![trigger interned(pd, g), nt_names(pd)[a]]
                {
                    &&& interned(pd, g)
                    &&& 0 <= a < g.rules@.len()
                    &&& nonterminal@ == nt_names(pd)[a]
                    &&& (alternatives.0 as int) < (alternatives.1 as int) < g.rules@[a]@.len()
                    &&& !ll1_pair_ok(
                        g,
                        first_of(g),
                        follow_of(g, start_of(pd)),
                        a,
                        alternatives.0 as int,
                        alternatives.1 as int,
                    )
                }))
            &&& ((!has_reserved(pd) && has_start(pd) && all_defined(pd) && (forall|g: Grammar|
                #[trigger] interned(pd, g) ==> ll1_ok(g, first_of(g), follow_of(g, start_of(pd)))))
                ==> r is Ok)
            &&& ((!has_reserved(pd) && has_start(pd) && all_defined(pd) && (exists|g: Grammar|
                #[trigger] interned(pd, g) && !ll1_ok(
                    g,
                    first_of(g),
                    follow_of(g, start_of(pd)),
                ))) ==> (r matches Err(e) && e is NotLL1))
            &&& (r matches Ok(text) ==> (has_start(pd) && !has_reserved(pd) && all_defined(pd) && (
            exists|g: Grammar|
                {
                    &&& #[trigger] interned(pd, g)
                    &&& ll1_ok(g, first_of(g), follow_of(g, start_of(pd)))
                    &&& text@ == parser_text(
                        g,
                        first_of(g),
                        follow_of(g, start_of(pd)),
                        pd,
                        start_of(pd),
                    )
                })))
        }),
{
    let ghost pd = *parser_description;
    // Eof is appended by the tokenizer and may not be declared.
    let eofs = String::from_str("Eof");
    let ntok = parser_description.tokens.len();
    let mut ti: usize = 0;
    while ti < ntok
        invariant
            pd == *parser_description,
            ntok == pd.tokens@.len(),
            ti <= ntok,
            eofs@ == "Eof"@,
            forall|k: int| 0 <= k < ti ==> (#[trigger] pd.tokens@[k]).name@ != "Eof"@,
        decreases ntok - ti,
    {
        if parser_description.tokens[ti].name.eq(&eofs) {
            proof {
                assert(has_reserved(pd));
            }
            return Err(GenError::ReservedTerminal);
        }
        ti = ti + 1;
    }
    proof {
        assert(!has_reserved(pd));
    }
    // the start symbol S must be declared; its first declaration is used
    let ss = String::from_str("S");
    let nnt = parser_description.not_terminal.len();
    let mut start: usize = 0;
    let mut found = false;
    let mut si: usize = 0;
    while si < nnt
        invariant
            pd == *parser_description,
            nnt == pd.not_terminal@.len(),
            nt_names(pd).len() == nnt,
            si <= nnt,
            ss@ == "S"@,
            found ==> start < nnt && pd.not_terminal@[start as int].name@ == "S"@ && lookup_spec(
                nt_names(pd),
                "S"@,
                0,
            ) == Some(start as int),
            !found ==> (forall|k: int|
                0 <= k < si ==> (#[trigger] pd.not_terminal@[k]).name@ != "S"@) && lookup_spec(
                nt_names(pd),
                "S"@,
                0,
            ) == lookup_spec(nt_names(pd), "S"@, si as int),
        decreases nnt - si,
    {
        proof {
            assert(nt_names(pd)[si as int] == pd.not_terminal@[si as int].name@);
        }
        if !found && parser_description.not_terminal[si].name.eq(&ss) {
            start = si;
            found = true;
        }
        si = si + 1;
    }
    if !found {
        proof {
            assert(!has_start(pd));
        }
        return Err(GenError::MissingStart);
    }
    proof {
        assert(has_start(pd));
        assert(start_of(pd) == start as int);
    }
    let grammar = match intern_grammar(parser_description) {
        Ok(g) => g,
        Err(e) => {
            return Err(e);
        },
    };
    let ghost g = grammar;
    let first = generate_first(&grammar);
    let follow = generate_follow(&grammar, &first, start);
    proof {
        assert(least_closed_first(g, fam_view(first@)));
        assert(exists|fv: Seq<Seq<bool>>| least_closed_first(g, fv));
        assert(least_closed_first(g, first_of(g)));
        lemma_first_fixpoint_unique(g, fam_view(first@), first_of(g));
        assert(fam_view(first@) == first_of(g));
        assert(least_closed_follow(g, first_of(g), start as int, fam_view(follow@)));
        assert(exists|fov: Seq<Seq<bool>>|
            least_closed_follow(g, first_of(g), start as int, fov));
        assert(least_closed_follow(g, first_of(g), start as int, follow_of(g, start as int)));
        lemma_follow_fixpoint_unique(
            g,
            first_of(g),
            start as int,
            fam_view(follow@),
            follow_of(g, start as int),
        );
        assert(fam_view(follow@) == follow_of(g, start as int));
    }
    match find_ll1_conflict(&grammar, &first, &follow) {
        Some((a, i, j)) => {
            proof {
                assert(!ll1_pair_ok(
                    g,
                    first_of(g),
                    follow_of(g, start_of(pd)),
                    a as int,
                    i as int,
                    j as int,
                ));
                assert(!ll1_ok(g, first_of(g), follow_of(g, start_of(pd))));
                assert(nt_names(pd)[a as int] == pd.not_terminal@[a as int].name@);
            }
            return Err(
                GenError::NotLL1 {
                    nonterminal: parser_description.not_terminal[a].name.clone(),
                    alternatives: (i, j),
                },
            );
        },
        None => {},
    }
    let mut answer = String::new();
    answer.append(
        "\nstruct Parser {\n    tokens: Vec<Token>,\n    pointer: usize,\n    counter: usize,\n}\n\nimpl Parser {\n    fn new(tokens: Vec<Token>) -> Parser {\n        Parser{tokens, pointer: 0, counter: 0}\n    }\n}\n\n",
    );
    answer.append("impl Parser {\n");
    let toks_text = generate_tokens_parse(&grammar);
    answer.append(toks_text.as_str());
    let rules_text = generate_rules(&grammar, parser_description, &first, &follow);
    answer.append(rules_text.as_str());
    answer.append("}");
    let pf = generate_parse_func(parser_description, start);
    answer.append(pf.as_str());
    proof {
        assert(answer@ =~= parser_text(
            g,
            first_of(g),
            follow_of(g, start_of(pd)),
            pd,
            start_of(pd),
        ));
        if exists|gx: Grammar|
            #[trigger] interned(pd, gx) && !ll1_ok(
                gx,
                first_of(gx),
                follow_of(gx, start_of(pd)),
            ) {
            let gx = choose|gx: Grammar|
                #[trigger] interned(pd, gx) && !ll1_ok(
                    gx,
                    first_of(gx),
                    follow_of(gx, start_of(pd)),
                );
            lemma_interned_equiv(pd, g, gx);
            lemma_first_of_agree(g, gx, fam_view(first@));
            lemma_follow_of_agree(g, gx, start_of(pd), fam_view(follow@));
            lemma_ll1_equiv(g, gx, first_of(g), follow_of(g, start_of(pd)));
            assert(false);
        }
    }
    Ok(answer)
}

/// Two grammars with the same terminal count and the same rule bodies.
pub open spec fn g_equiv(g1: Grammar, g2: Grammar) -> bool {
    &&& g1.terminals@.len() == g2.terminals@.len()
    &&& g1.rules@.len() == g2.rules@.len()
    &&& forall|a: int|
        0 <= a < g1.rules@.len() ==> (#[trigger] g1.rules@[a])@.len() == g2.rules@[a]@.len()
    &&& forall|a: int, r: int|
        0 <= a < g1.rules@.len() && 0 <= r < g1.rules@[a]@.len() ==> (
        #[trigger] g1.rules@[a]@[r])@ == g2.rules@[a]@[r]@
}

/// Two internings of one description carry the same analysis data.
proof fn lemma_interned_equiv(pd: ParserDescription, g1: Grammar, g2: Grammar)
    requires
        interned(pd, g1),
        interned(pd, g2),
    ensures
        g_equiv(g1, g2),
{
    assert(names_view(g1.terminals@).len() == g1.terminals@.len());
    assert(names_view(g2.terminals@).len() == g2.terminals@.len());
    assert(term_names(pd).len() == pd.tokens@.len());
    assert forall|a: int, r: int|
        0 <= a < g1.rules@.len() && 0 <= r < g1.rules@[a]@.len() implies (
        #[trigger] g1.rules@[a]@[r])@ == g2.rules@[a]@[r]@ by {
        assert forall|k: int| 0 <= k < g1.rules@[a]@[r]@.len() implies (
        #[trigger] g1.rules@[a]@[r]@[k]) == g2.rules@[a]@[r]@[k] by {
            assert(g1.rules@[a]@[r]@[k] == sym_of(
                pd,
                rule_call_names(pd.not_terminal@[a].rules@[r].members@, 0)[k],
            ));
            assert(g2.rules@[a]@[r]@[k] == sym_of(
                pd,
                rule_call_names(pd.not_terminal@[a].rules@[r].members@, 0)[k],
            ));
        }
        assert(g1.rules@[a]@[r]@ =~= g2.rules@[a]@[r]@);
    }
}

/// The closure conditions, leastness and LL(1) condition read only the
/// terminal count and the rule bodies, so they agree on equivalent
/// grammars.
proof fn lemma_closed_first_equiv(g1: Grammar, g2: Grammar, fv: Seq<Seq<bool>>)
    requires
        g_equiv(g1, g2),
    ensures
        closed_first(g1, fv) == closed_first(g2, fv),
{
    if closed_first(g1, fv) {
        assert forall|a: int, r: int, t: int|
            0 <= a < g2.rules@.len() && 0 <= r < g2.rules@[a]@.len() && 0 <= t < width(g2)
                && rf_has(g2, fv, #[trigger] g2.rules@[a]@[r]@, 0, t) implies #[trigger] fv[a][t] by {
            lemma_rf_same_eps(g2, g1, fv, g2.rules@[a]@[r]@, 0, t);
            assert(g1.rules@[a]@[r]@ == g2.rules@[a]@[r]@);
            assert(rf_has(g1, fv, g1.rules@[a]@[r]@, 0, t));
        }
    }
    if closed_first(g2, fv) {
        assert forall|a: int, r: int, t: int|
            0 <= a < g1.rules@.len() && 0 <= r < g1.rules@[a]@.len() && 0 <= t < width(g1)
                && rf_has(g1, fv, #[trigger] g1.rules@[a]@[r]@, 0, t) implies #[trigger] fv[a][t] by {
            lemma_rf_same_eps(g1, g2, fv, g1.rules@[a]@[r]@, 0, t);
            assert(rf_has(g2, fv, g2.rules@[a]@[r]@, 0, t));
        }
    }
}

proof fn lemma_least_first_equiv(g1: Grammar, g2: Grammar, fv: Seq<Seq<bool>>)
    requires
        g_equiv(g1, g2),
    ensures
        least_closed_first(g1, fv) == least_closed_first(g2, fv),
{
    lemma_closed_first_equiv(g1, g2, fv);
    if least_closed_first(g1, fv) {
        assert forall|gv: Seq<Seq<bool>>|
            fam_wf(g2, gv) && closed_first(g2, gv) implies #[trigger] sub_fam(fv, gv) by {
            lemma_closed_first_equiv(g1, g2, gv);
        }
    }
    if least_closed_first(g2, fv) {
        assert forall|gv: Seq<Seq<bool>>|
            fam_wf(g1, gv) && closed_first(g1, gv) implies #[trigger] sub_fam(fv, gv) by {
            lemma_closed_first_equiv(g1, g2, gv);
        }
    }
}

/// Equivalent grammars have the same FIRST family.
proof fn lemma_first_of_agree(g1: Grammar, g2: Grammar, f: Seq<Seq<bool>>)
    requires
        g_equiv(g1, g2),
        least_closed_first(g1, f),
    ensures
        first_of(g1) == f,
        first_of(g2) == f,
{
    assert(exists|fv: Seq<Seq<bool>>| least_closed_first(g1, fv));
    assert(least_closed_first(g1, first_of(g1)));
    lemma_first_fixpoint_unique(g1, first_of(g1), f);
    lemma_least_first_equiv(g1, g2, f);
    assert(exists|fv: Seq<Seq<bool>>| least_closed_first(g2, fv));
    assert(least_closed_first(g2, first_of(g2)));
    lemma_least_first_equiv(g1, g2, first_of(g2));
    lemma_first_fixpoint_unique(g1, first_of(g2), f);
}

proof fn lemma_closed_follow_equiv(
    g1: Grammar,
    g2: Grammar,
    fst: Seq<Seq<bool>>,
    start: int,
    fo: Seq<Seq<bool>>,
)
    requires
        g_equiv(g1, g2),
    ensures
        closed_follow(g1, fst, start, fo) == closed_follow(g2, fst, start, fo),
{
    if closed_follow(g1, fst, start, fo) {
        assert forall|a: int, r: int, i: int|
            0 <= a < g2.rules@.len() && 0 <= r < g2.rules@[a]@.len() && 0 <= i
                < g2.rules@[a]@[r]@.len() implies #[trigger] closed_follow_pos(
            g2,
            fst,
            fo,
            a,
            r,
            i,
        ) by {
            assert(closed_follow_pos(g1, fst, fo, a, r, i));
            lemma_closed_follow_pos_equiv(g1, g2, fst, fo, a, r, i);
        }
    }
    if closed_follow(g2, fst, start, fo) {
        assert forall|a: int, r: int, i: int|
            0 <= a < g1.rules@.len() && 0 <= r < g1.rules@[a]@.len() && 0 <= i
                < g1.rules@[a]@[r]@.len() implies #[trigger] closed_follow_pos(
            g1,
            fst,
            fo,
            a,
            r,
            i,
        ) by {
            assert(closed_follow_pos(g2, fst, fo, a, r, i));
            lemma_closed_follow_pos_equiv(g1, g2, fst, fo, a, r, i);
        }
    }
}

proof fn lemma_closed_follow_pos_equiv(
    g1: Grammar,
    g2: Grammar,
    fst: Seq<Seq<bool>>,
    fo: Seq<Seq<bool>>,
    a: int,
    r: int,
    i: int,
)
    requires
        g_equiv(g1, g2),
        0 <= a < g1.rules@.len(),
        0 <= r < g1.rules@[a]@.len(),
    ensures
        closed_follow_pos(g1, fst, fo, a, r, i) == closed_follow_pos(g2, fst, fo, a, r, i),
{
    let rule = g1.rules@[a]@[r]@;
    assert(g2.rules@[a]@[r]@ == rule);
    assert(eps_i(g1) == eps_i(g2));
    assert(width(g1) == width(g2));
    assert forall|t: int| #[trigger] rf_has(g1, fst, rule, i + 1, t) implies rf_has(
        g2,
        fst,
        rule,
        i + 1,
        t,
    ) by {
        lemma_rf_same_eps(g1, g2, fst, rule, i + 1, t);
    }
    assert forall|t: int| #[trigger] rf_has(g2, fst, rule, i + 1, t) implies rf_has(
        g1,
        fst,
        rule,
        i + 1,
        t,
    ) by {
        lemma_rf_same_eps(g2, g1, fst, rule, i + 1, t);
    }
}

/// Equivalent grammars have the same FOLLOW family.
proof fn lemma_follow_of_agree(g1: Grammar, g2: Grammar, start: int, fo: Seq<Seq<bool>>)
    requires
        g_equiv(g1, g2),
        first_of(g1) == first_of(g2),
        least_closed_follow(g1, first_of(g1), start, fo),
    ensures
        follow_of(g1, start) == fo,
        follow_of(g2, start) == fo,
{
    let fst = first_of(g1);
    assert(exists|fv: Seq<Seq<bool>>| least_closed_follow(g1, fst, start, fv));
    assert(least_closed_follow(g1, fst, start, follow_of(g1, start)));
    lemma_follow_fixpoint_unique(g1, fst, start, follow_of(g1, start), fo);
    lemma_least_follow_equiv(g1, g2, fst, start, fo);
    assert(exists|fv: Seq<Seq<bool>>| least_closed_follow(g2, fst, start, fv));
    assert(least_closed_follow(g2, fst, start, follow_of(g2, start)));
    lemma_least_follow_equiv(g1, g2, fst, start, follow_of(g2, start));
    lemma_follow_fixpoint_unique(g1, fst, start, follow_of(g2, start), fo);
}

proof fn lemma_least_follow_equiv(
    g1: Grammar,
    g2: Grammar,
    fst: Seq<Seq<bool>>,
    start: int,
    fo: Seq<Seq<bool>>,
)
    requires
        g_equiv(g1, g2),
    ensures
        least_closed_follow(g1, fst, start, fo) == least_closed_follow(g2, fst, start, fo),
{
    lemma_closed_follow_equiv(g1, g2, fst, start, fo);
    if least_closed_follow(g1, fst, start, fo) {
        assert forall|gv: Seq<Seq<bool>>|
            fam_wf(g2, gv) && closed_follow(g2, fst, start, gv) implies #[trigger] sub_fam(
            fo,
            gv,
        ) by {
            lemma_closed_follow_equiv(g1, g2, fst, start, gv);
        }
    }
    if least_closed_follow(g2, fst, start, fo) {
        assert forall|gv: Seq<Seq<bool>>|
            fam_wf(g1, gv) && closed_follow(g1, fst, start, gv) implies #[trigger] sub_fam(
            fo,
            gv,
        ) by {
            lemma_closed_follow_equiv(g1, g2, fst, start, gv);
        }
    }
}

/// Equivalent grammars agree on the LL(1) condition.
proof fn lemma_ll1_equiv(g1: Grammar, g2: Grammar, fst: Seq<Seq<bool>>, fov: Seq<Seq<bool>>)
    requires
        g_equiv(g1, g2),
    ensures
        ll1_ok(g1, fst, fov) == ll1_ok(g2, fst, fov),
{
    if ll1_ok(g1, fst, fov) {
        assert forall|a: int, i: int, j: int|
            0 <= a < g2.rules@.len() && 0 <= i < j < g2.rules@[a]@.len() implies
            #[trigger] ll1_pair_ok(g2, fst, fov, a, i, j) by {
            assert(ll1_pair_ok(g1, fst, fov, a, i, j));
            lemma_ll1_pair_equiv(g1, g2, fst, fov, a, i, j);
        }
    }
    if ll1_ok(g2, fst, fov) {
        assert forall|a: int, i: int, j: int|
            0 <= a < g1.rules@.len() && 0 <= i < j < g1.rules@[a]@.len() implies
            #[trigger] ll1_pair_ok(g1, fst, fov, a, i, j) by {
            assert(ll1_pair_ok(g2, fst, fov, a, i, j));
            lemma_ll1_pair_equiv(g1, g2, fst, fov, a, i, j);
        }
    }
}

proof fn lemma_ll1_pair_equiv(
    g1: Grammar,
    g2: Grammar,
    fst: Seq<Seq<bool>>,
    fov: Seq<Seq<bool>>,
    a: int,
    i: int,
    j: int,
)
    requires
        g_equiv(g1, g2),
        0 <= a < g1.rules@.len(),
        0 <= i < g1.rules@[a]@.len(),
        0 <= j < g1.rules@[a]@.len(),
    ensures
        ll1_pair_ok(g1, fst, fov, a, i, j) == ll1_pair_ok(g2, fst, fov, a, i, j),
{
    let alpha = g1.rules@[a]@[i]@;
    let beta = g1.rules@[a]@[j]@;
    assert(g2.rules@[a]@[i]@ == alpha);
    assert(g2.rules@[a]@[j]@ == beta);
    assert(eps_i(g1) == eps_i(g2));
    assert(width(g1) == width(g2));
    assert forall|t: int| #[trigger] rf_has(g1, fst, alpha, 0, t) implies rf_has(
        g2,
        fst,
        alpha,
        0,
        t,
    ) by {
        lemma_rf_same_eps(g1, g2, fst, alpha, 0, t);
    }
    assert forall|t: int| #[trigger] rf_has(g2, fst, alpha, 0, t) implies rf_has(
        g1,
        fst,
        alpha,
        0,
        t,
    ) by {
        lemma_rf_same_eps(g2, g1, fst, alpha, 0, t);
    }
    assert forall|t: int| #[trigger] rf_has(g1, fst, beta, 0, t) implies rf_has(
        g2,
        fst,
        beta,
        0,
        t,
    ) by {
        lemma_rf_same_eps(g1, g2, fst, beta, 0, t);
    }
    assert forall|t: int| #[trigger] rf_has(g2, fst, beta, 0, t) implies rf_has(
        g1,
        fst,
        beta,
        0,
        t,
    ) by {
        lemma_rf_same_eps(g2, g1, fst, beta, 0, t);
    }
}

/// The least family closed under the FIRST equations.
pub open spec fn least_closed_first(g: Grammar, fv: Seq<Seq<bool>>) -> bool {
    &&& fam_wf(g, fv)
    &&& closed_first(g, fv)
    &&& forall|gv: Seq<Seq<bool>>| fam_wf(g, gv) && closed_first(g, gv) ==> #[trigger] sub_fam(
        fv,
        gv,
    )
}

/// The least closed FIRST family is unique: recomputing the fixpoint can
/// only reproduce the same sets.
pub proof fn lemma_first_fixpoint_unique(g: Grammar, f1: Seq<Seq<bool>>, f2: Seq<Seq<bool>>)
    requires
        least_closed_first(g, f1),
        least_closed_first(g, f2),
    ensures
        f1 =~~= f2,
{
    assert(sub_fam(f1, f2));
    assert(sub_fam(f2, f1));
    assert forall|a: int| 0 <= a < f1.len() implies #[trigger] f1[a] =~= f2[a] by {
        assert forall|t: int| 0 <= t < f1[a].len() implies #[trigger] f1[a][t] == f2[a][t] by {
            if f1[a][t] {
            }
            if f2[a][t] {
            }
        }
    }
}

/// The least closed FOLLOW family is unique as well.
pub proof fn lemma_follow_fixpoint_unique(
    g: Grammar,
    first: Seq<Seq<bool>>,
    start: int,
    f1: Seq<Seq<bool>>,
    f2: Seq<Seq<bool>>,
)
    requires
        least_closed_follow(g, first, start, f1),
        least_closed_follow(g, first, start, f2),
    ensures
        f1 =~~= f2,
{
    assert(sub_fam(f1, f2));
    assert(sub_fam(f2, f1));
    assert forall|a: int| 0 <= a < f1.len() implies #[trigger] f1[a] =~= f2[a] by {
        assert forall|t: int| 0 <= t < f1[a].len() implies #[trigger] f1[a][t] == f2[a][t] by {
            if f1[a][t] {
            }
            if f2[a][t] {
            }
        }
    }
}

/// Membership under one grammar is membership under another with the same
/// terminal alphabet: FIRST of a rule body depends only on the terminal
/// count and the family.
proof fn lemma_rf_same_eps(g1: Grammar, g2: Grammar, fv: Seq<Seq<bool>>, rule: Seq<Sym>, i: int, t: int)
    requires
        g1.terminals@.len() == g2.terminals@.len(),
    ensures
        rf_has(g1, fv, rule, i, t) == rf_has(g2, fv, rule, i, t),
    decreases rule.len() - i,
{
    if 0 <= i < rule.len() {
        lemma_rf_same_eps(g1, g2, fv, rule, i + 1, t);
    }
}

/// Monotonicity: adding alternatives can only grow the least closed
/// FOLLOW family as well, given FIRST families that themselves only grew.
/// `g2` extends `g1`: same terminals, same nonterminals, and every
/// alternative of `g1` kept in place.
pub proof fn lemma_follow_monotone(
    g1: Grammar,
    g2: Grammar,
    start: int,
    f1: Seq<Seq<bool>>,
    f2: Seq<Seq<bool>>,
    fo1: Seq<Seq<bool>>,
    fo2: Seq<Seq<bool>>,
)
    requires
        g1.terminals@.len() == g2.terminals@.len(),
        g1.rules@.len() == g2.rules@.len(),
        forall|a: int|
            0 <= a < g1.rules@.len() ==> (#[trigger] g1.rules@[a])@.len() <= g2.rules@[a]@.len(),
        forall|a: int, r: int|
            0 <= a < g1.rules@.len() && 0 <= r < g1.rules@[a]@.len() ==> (
            #[trigger] g1.rules@[a]@[r])@ == g2.rules@[a]@[r]@,
        fam_wf(g1, f1),
        sub_fam(f1, f2),
        least_closed_follow(g1, f1, start, fo1),
        least_closed_follow(g2, f2, start, fo2),
    ensures
        sub_fam(fo1, fo2),
{
    // fo2 is closed for g1 over f1 as well: every position of g1 is a
    // position of g2 with the same rule body, and FIRST membership only
    // grows from f1 to f2.
    assert forall|a: int, r: int, i: int|
        0 <= a < g1.rules@.len() && 0 <= r < g1.rules@[a]@.len() && 0 <= i
            < g1.rules@[a]@[r]@.len() implies #[trigger] closed_follow_pos(
        g1,
        f1,
        fo2,
        a,
        r,
        i,
    ) by {
        assert(closed_follow_pos(g2, f2, fo2, a, r, i));
        let rule = g1.rules@[a]@[r]@;
        assert(g2.rules@[a]@[r]@ == rule);
        if rule[i] is N {
            let b = rule[i]->N_0 as int;
            assert forall|t: int|
                0 <= t < width(g1) && t != eps_i(g1) && #[trigger] rf_has(g1, f1, rule, i + 1, t)
                    implies fo2[b][t] by {
                lemma_rf_mono(g1, f1, f2, rule, i + 1, t);
                lemma_rf_same_eps(g1, g2, f2, rule, i + 1, t);
            }
            if rf_has(g1, f1, rule, i + 1, eps_i(g1)) {
                lemma_rf_mono(g1, f1, f2, rule, i + 1, eps_i(g1));
                lemma_rf_same_eps(g1, g2, f2, rule, i + 1, eps_i(g1));
                assert(rf_has(g2, f2, rule, i + 1, eps_i(g2)));
            }
        }
    }
    assert(closed_follow(g1, f1, start, fo2));
    assert(fam_wf(g1, fo2));
    assert(sub_fam(fo1, fo2));
}

/// Monotonicity: adding alternatives to a grammar can only grow the least
/// closed FIRST family. `g2` extends `g1`: same terminals, same
/// nonterminals, and every alternative of `g1` kept in place.
pub proof fn lemma_first_monotone(
    g1: Grammar,
    g2: Grammar,
    f1: Seq<Seq<bool>>,
    f2: Seq<Seq<bool>>,
)
    requires
        g1.terminals@.len() == g2.terminals@.len(),
        g1.rules@.len() == g2.rules@.len(),
        forall|a: int|
            0 <= a < g1.rules@.len() ==> (#[trigger] g1.rules@[a])@.len() <= g2.rules@[a]@.len(),
        forall|a: int, r: int|
            0 <= a < g1.rules@.len() && 0 <= r < g1.rules@[a]@.len() ==> (
            #[trigger] g1.rules@[a]@[r])@ == g2.rules@[a]@[r]@,
        least_closed_first(g1, f1),
        least_closed_first(g2, f2),
    ensures
        sub_fam(f1, f2),
{
    // f2 is closed for g1 as well: every rule of g1 is a rule of g2.
    assert forall|a: int, r: int, t: int|
        0 <= a < g1.rules@.len() && 0 <= r < g1.rules@[a]@.len() && 0 <= t < width(g1) && rf_has(
            g1,
            f2,
            #[trigger] g1.rules@[a]@[r]@,
            0,
            t,
        ) implies #[trigger] f2[a][t] by {
        lemma_rf_same_eps(g1, g2, f2, g1.rules@[a]@[r]@, 0, t);
        assert(g1.rules@[a]@[r]@ == g2.rules@[a]@[r]@);
        assert(rf_has(g2, f2, g2.rules@[a]@[r]@, 0, t));
    }
    assert(closed_first(g1, f2));
    assert(fam_wf(g1, f2));
    assert(sub_fam(f1, f2));
}

} // verus!
