//! The grammar-description language: `Prelude`, `Skip`, `Tokens` and
//! `NotTerminals` blocks read into the intermediate representation.
//!
//! The reader is a hand-written recursive descent over the characters of
//! the input; an error carries the offset of the offending character.
use vstd::prelude::*;
use vstd::string::StrSliceExecFns;
use vstd::string::StringExecFns;

verus! {

/// The intermediate representation of a grammar description.
pub struct ParserDescription {
    pub prelude: String,
    pub skip: Vec<String>,
    pub tokens: Vec<Token>,
    pub not_terminal: Vec<NotTerminal>,
}

/// A terminal declaration: its name and its regular expression (with the
/// surrounding quotes kept, ready to splice into the emitted source).
pub struct Token {
    pub name: String,
    pub regex: String,
}

/// A nonterminal declaration.
pub struct NotTerminal {
    pub name: String,
    pub args: Vec<Typed>,
    pub returns: Vec<Typed>,
    pub rules: Vec<Rule>,
}

/// One alternative: its members in order.
pub struct Rule {
    pub members: Vec<RuleMember>,
}

/// A member of an alternative: a call of a terminal or nonterminal, or a
/// verbatim host-language fragment.
pub enum RuleMember {
    RuleCall(RuleToken),
    Command(String),
}

/// A call member: the callee's name and the verbatim argument text.
pub struct RuleToken {
    pub name: String,
    pub args: String,
}

/// A typed attribute: its name and its verbatim type text.
pub struct Typed {
    pub name: String,
    pub ty: String,
}

/// A malformed grammar description, at a character offset of the input.
#[derive(Debug)]
pub struct MetaParseError {
    pub position: usize,
    pub message: String,
}

pub open spec fn is_ws(c: char) -> bool {
    c == ' ' || c == '\n' || c == '\r' || c == '\t'
}

pub open spec fn is_letter(c: char) -> bool {
    ('a' <= c && c <= 'z') || ('A' <= c && c <= 'Z')
}

/// The offset of the first non-blank character at or after `pos`.
pub open spec fn ws_end(cs: Seq<char>, pos: int) -> int
    decreases cs.len() - pos,
{
    if 0 <= pos < cs.len() && is_ws(cs[pos]) {
        ws_end(cs, pos + 1)
    } else {
        pos
    }
}

/// The offset after the run of ASCII letters starting at `pos`.
pub open spec fn letters_end(cs: Seq<char>, pos: int) -> int
    decreases cs.len() - pos,
{
    if 0 <= pos < cs.len() && is_letter(cs[pos]) {
        letters_end(cs, pos + 1)
    } else {
        pos
    }
}

/// The offset of the first occurrence of one of the two stop characters
/// at or after `pos`.
pub open spec fn till2_end(cs: Seq<char>, pos: int, s1: char, s2: char) -> int
    decreases cs.len() - pos,
{
    if 0 <= pos < cs.len() && cs[pos] != s1 && cs[pos] != s2 {
        till2_end(cs, pos + 1, s1, s2)
    } else {
        pos
    }
}

/// The end of the longest balanced-bracket region starting at `pos`: a
/// mix of non-bracket text and complete nested pairs, stopping before an
/// unmatched closing bracket, before an opening bracket whose partner is
/// missing, or at the end of the input.
pub open spec fn bal_end(cs: Seq<char>, pos: int, lb: char, rb: char) -> int
    decreases cs.len() - pos, 1int,
{
    if !(0 <= pos < cs.len()) {
        pos
    } else if cs[pos] == rb {
        pos
    } else if cs[pos] == lb {
        let j = bal_end(cs, pos + 1, lb, rb);
        if pos + 1 <= j && j < cs.len() && cs[j] == rb {
            bal_end_from(cs, pos, j + 1, lb, rb)
        } else {
            pos
        }
    } else {
        bal_end(cs, pos + 1, lb, rb)
    }
}

/// Continues a balanced scan at `k`, which a completed nested pair was
/// consumed up to.
pub open spec fn bal_end_from(cs: Seq<char>, pos: int, k: int, lb: char, rb: char) -> int
    decreases cs.len() - pos, 0int,
{
    if pos < k <= cs.len() {
        bal_end(cs, k, lb, rb)
    } else {
        pos
    }
}

/// The blank-trimmed sub-range of `[a, b)`.
pub open spec fn trim_s(cs: Seq<char>, a: int, b: int) -> (int, int)
    decreases b - a,
{
    if 0 <= a < b <= cs.len() {
        if is_ws(cs[a]) {
            trim_s(cs, a + 1, b)
        } else if is_ws(cs[b - 1]) {
            trim_s(cs, a, b - 1)
        } else {
            (a, b)
        }
    } else {
        (a, b)
    }
}

proof fn lemma_ws_end_ge(cs: Seq<char>, p: int)
    requires
        0 <= p,
    ensures
        p <= ws_end(cs, p),
        p <= cs.len() ==> ws_end(cs, p) <= cs.len(),
    decreases cs.len() - p,
{
    if 0 <= p < cs.len() && is_ws(cs[p]) {
        lemma_ws_end_ge(cs, p + 1);
    }
}

proof fn lemma_letters_end_ge(cs: Seq<char>, p: int)
    requires
        0 <= p,
    ensures
        p <= letters_end(cs, p),
        p <= cs.len() ==> letters_end(cs, p) <= cs.len(),
    decreases cs.len() - p,
{
    if 0 <= p < cs.len() && is_letter(cs[p]) {
        lemma_letters_end_ge(cs, p + 1);
    }
}

proof fn lemma_till2_end_ge(cs: Seq<char>, p: int, s1: char, s2: char)
    requires
        0 <= p,
    ensures
        p <= till2_end(cs, p, s1, s2),
        p <= cs.len() ==> till2_end(cs, p, s1, s2) <= cs.len(),
    decreases cs.len() - p,
{
    if 0 <= p < cs.len() && cs[p] != s1 && cs[p] != s2 {
        lemma_till2_end_ge(cs, p + 1, s1, s2);
    }
}

proof fn lemma_bal_end_ge(cs: Seq<char>, p: int, lb: char, rb: char)
    requires
        0 <= p,
    ensures
        p <= bal_end(cs, p, lb, rb),
        p <= cs.len() ==> bal_end(cs, p, lb, rb) <= cs.len(),
    decreases cs.len() - p, 1int,
{
    if 0 <= p < cs.len() && cs[p] != rb {
        if cs[p] == lb {
            lemma_bal_end_ge(cs, p + 1, lb, rb);
            let j = bal_end(cs, p + 1, lb, rb);
            if p + 1 <= j && j < cs.len() && cs[j] == rb {
                lemma_bal_end_ge(cs, j + 1, lb, rb);
                assert(bal_end_from(cs, p, j + 1, lb, rb) == bal_end(cs, j + 1, lb, rb));
                assert(bal_end(cs, p, lb, rb) == bal_end(cs, j + 1, lb, rb));
            } else {
                assert(bal_end(cs, p, lb, rb) == p);
            }
        } else {
            lemma_bal_end_ge(cs, p + 1, lb, rb);
        }
    }
}

proof fn lemma_trim_in(cs: Seq<char>, a: int, b: int)
    requires
        0 <= a <= b <= cs.len(),
    ensures
        a <= trim_s(cs, a, b).0,
        trim_s(cs, a, b).0 <= trim_s(cs, a, b).1,
        trim_s(cs, a, b).1 <= b,
    decreases b - a,
{
    if 0 <= a < b <= cs.len() {
        if is_ws(cs[a]) {
            lemma_trim_in(cs, a + 1, b);
        } else if is_ws(cs[b - 1]) {
            lemma_trim_in(cs, a, b - 1);
        }
    }
}

// ---------------------------------------------------------------------------
// The meta-language, stated: one predicate/offset pair per form of the
// §6 grammar, over the scanner functions above. `*_ok` says the form
// stands at the offset, `*_end` where reading it stops, and the
// `*_matches` predicates pin the read value to the input text.
// ---------------------------------------------------------------------------
/// A balanced-brace block stands at `pos`.
pub open spec fn braced_ok(cs: Seq<char>, pos: int) -> bool {
    &&& 0 <= pos < cs.len() && cs[pos] == '{'
    &&& bal_end(cs, pos + 1, '{', '}') < cs.len()
    &&& cs[bal_end(cs, pos + 1, '{', '}')] == '}'
}

pub open spec fn braced_end(cs: Seq<char>, pos: int) -> int {
    bal_end(cs, pos + 1, '{', '}') + 1
}

/// A quoted, non-empty regex literal stands at `pos`.
pub open spec fn regex_ok(cs: Seq<char>, pos: int) -> bool {
    &&& 0 <= pos < cs.len() && cs[pos] == '"'
    &&& pos + 1 < till2_end(cs, pos + 1, '"', '"')
    &&& till2_end(cs, pos + 1, '"', '"') < cs.len()
}

pub open spec fn regex_end(cs: Seq<char>, pos: int) -> int {
    till2_end(cs, pos + 1, '"', '"') + 1
}

/// A typed attribute `name # type` stands at `pos` (leading blanks
/// allowed; both fragments non-empty after trimming).
pub open spec fn typed_ok(cs: Seq<char>, pos: int) -> bool {
    let p0 = ws_end(cs, pos);
    let ne = till2_end(cs, p0, '#', '}');
    let p1 = ws_end(cs, ne + 1);
    let te = till2_end(cs, p1, ';', '}');
    &&& ne > p0
    &&& ne < cs.len() && cs[ne] == '#'
    &&& te > p1
    &&& trim_s(cs, p0, ne).0 < trim_s(cs, p0, ne).1
    &&& trim_s(cs, p1, te).0 < trim_s(cs, p1, te).1
}

pub open spec fn typed_end(cs: Seq<char>, pos: int) -> int {
    let p0 = ws_end(cs, pos);
    let ne = till2_end(cs, p0, '#', '}');
    let p1 = ws_end(cs, ne + 1);
    till2_end(cs, p1, ';', '}')
}

/// `t` holds the trimmed fragments of the typed attribute at `pos`.
pub open spec fn typed_matches(cs: Seq<char>, pos: int, t: Typed) -> bool {
    let p0 = ws_end(cs, pos);
    let ne = till2_end(cs, p0, '#', '}');
    let p1 = ws_end(cs, ne + 1);
    let te = till2_end(cs, p1, ';', '}');
    &&& t.name@ == cs.subrange(trim_s(cs, p0, ne).0, trim_s(cs, p0, ne).1)
    &&& t.ty@ == cs.subrange(trim_s(cs, p1, te).0, trim_s(cs, p1, te).1)
}

/// The `;`-separated typed list read from `pos`: the start offsets of its
/// items and the offset where the list stops.
pub open spec fn typed_list(cs: Seq<char>, pos: int) -> (Seq<int>, int)
    decreases cs.len() - pos, 1int,
{
    if 0 <= pos && typed_ok(cs, pos) && pos < typed_end(cs, pos) {
        let (m, e) = typed_more(cs, typed_end(cs, pos));
        (seq![pos] + m, e)
    } else {
        (Seq::empty(), pos)
    }
}

pub open spec fn typed_more(cs: Seq<char>, q: int) -> (Seq<int>, int)
    decreases cs.len() - q, 1int,
{
    if 0 <= q < cs.len() && cs[q] == ';' && typed_ok(cs, q + 1) && q < typed_end(cs, q + 1) {
        let (m, e) = typed_more2(cs, q, typed_end(cs, q + 1));
        (seq![q + 1] + m, e)
    } else {
        (Seq::empty(), q)
    }
}

pub open spec fn typed_more2(cs: Seq<char>, q: int, k: int) -> (Seq<int>, int)
    decreases cs.len() - q, 0int,
{
    if q < k <= cs.len() {
        typed_more(cs, k)
    } else {
        (Seq::empty(), q)
    }
}

/// A `{`-delimited typed list stands at `pos`.
pub open spec fn args_ok(cs: Seq<char>, pos: int) -> bool {
    &&& 0 <= pos < cs.len() && cs[pos] == '{'
    &&& typed_list(cs, pos + 1).1 < cs.len()
    &&& cs[typed_list(cs, pos + 1).1] == '}'
}

pub open spec fn args_end(cs: Seq<char>, pos: int) -> int {
    typed_list(cs, pos + 1).1 + 1
}

/// `v` lists the typed attributes of the block at `pos`, in order.
pub open spec fn args_matches(cs: Seq<char>, pos: int, v: Seq<Typed>) -> bool {
    let ss = typed_list(cs, pos + 1).0;
    &&& v.len() == ss.len()
    &&& forall|i: int| 0 <= i < v.len() ==> typed_matches(cs, #[trigger] ss[i], v[i])
}

/// A call member (identifier with an optional balanced-paren argument
/// block) stands at `pos`.
pub open spec fn rtok_ok(cs: Seq<char>, pos: int) -> bool {
    let le = letters_end(cs, pos);
    let p2 = ws_end(cs, le);
    &&& le > pos
    &&& (p2 < cs.len() && cs[p2] == '(' ==> bal_end(cs, p2 + 1, '(', ')') < cs.len() && cs[bal_end(
        cs,
        p2 + 1,
        '(',
        ')',
    )] == ')')
}

pub open spec fn rtok_end(cs: Seq<char>, pos: int) -> int {
    let le = letters_end(cs, pos);
    let p2 = ws_end(cs, le);
    if p2 < cs.len() && cs[p2] == '(' {
        bal_end(cs, p2 + 1, '(', ')') + 1
    } else {
        le
    }
}

/// `m` holds the member read at `pos`: a call with its name and verbatim
/// argument block (defaulting to `()`), or a verbatim command fragment.
pub open spec fn member_matches(cs: Seq<char>, pos: int, m: RuleMember) -> bool {
    if 0 <= pos < cs.len() && is_letter(cs[pos]) {
        let le = letters_end(cs, pos);
        let p2 = ws_end(cs, le);
        m matches RuleMember::RuleCall(rt) && rt.name@ == cs.subrange(pos, le) && (if p2 < cs.len()
            && cs[p2] == '(' {
            rt.args@ == cs.subrange(p2, bal_end(cs, p2 + 1, '(', ')') + 1)
        } else {
            rt.args@ == "()"@
        })
    } else {
        m matches RuleMember::Command(c) && c@ == cs.subrange(pos + 1, bal_end(cs, pos + 1, '{', '}'))
    }
}

/// One alternative read from `pos`: the offsets of its members, the
/// offset where it stops (trailing blanks consumed), and whether every
/// member was well-formed.
pub open spec fn rule_scan(cs: Seq<char>, pos: int) -> (Seq<int>, int, bool)
    decreases cs.len() - pos, 2int,
{
    if 0 <= pos <= ws_end(cs, pos) {
        rs_loop(cs, ws_end(cs, pos))
    } else {
        (Seq::empty(), pos, false)
    }
}

pub open spec fn rs_loop(cs: Seq<char>, p: int) -> (Seq<int>, int, bool)
    decreases cs.len() - p, 1int,
{
    if !(0 <= p < cs.len()) {
        (Seq::empty(), p, true)
    } else if is_letter(cs[p]) {
        if rtok_ok(cs, p) && p < ws_end(cs, rtok_end(cs, p)) {
            let (m, q, ok) = rs_step(cs, p, ws_end(cs, rtok_end(cs, p)));
            (seq![p] + m, q, ok)
        } else {
            (Seq::empty(), p, false)
        }
    } else if cs[p] == '{' {
        if braced_ok(cs, p) && p < ws_end(cs, braced_end(cs, p)) {
            let (m, q, ok) = rs_step(cs, p, ws_end(cs, braced_end(cs, p)));
            (seq![p] + m, q, ok)
        } else {
            (Seq::empty(), p, false)
        }
    } else {
        (Seq::empty(), p, true)
    }
}

pub open spec fn rs_step(cs: Seq<char>, p: int, k: int) -> (Seq<int>, int, bool)
    decreases cs.len() - p, 0int,
{
    if p < k <= cs.len() {
        rs_loop(cs, k)
    } else {
        (Seq::empty(), p, false)
    }
}

/// `rule` holds the alternative read at `pos`: its members in order.
pub open spec fn rule_matches(cs: Seq<char>, pos: int, rule: Rule) -> bool {
    let (ms, q, ok) = rule_scan(cs, pos);
    &&& ok
    &&& rule.members@.len() == ms.len()
    &&& forall|j: int| 0 <= j < ms.len() ==> member_matches(cs, #[trigger] ms[j], rule.members@[j])
}

/// The `|`-separated alternatives read from `pos`: the offsets of the
/// alternatives, the offset after the last, and whether all were
/// well-formed.
pub open spec fn alt_scan(cs: Seq<char>, pos: int) -> (Seq<int>, int, bool)
    decreases cs.len() - pos, 3int,
{
    let (m0, q0, ok0) = rule_scan(cs, pos);
    if !ok0 {
        (Seq::empty(), pos, false)
    } else if pos <= q0 <= cs.len() {
        let (ss, q, ok) = alt_more(cs, q0);
        (seq![pos] + ss, q, ok)
    } else {
        (Seq::empty(), pos, false)
    }
}

pub open spec fn alt_more(cs: Seq<char>, q: int) -> (Seq<int>, int, bool)
    decreases cs.len() - q, 1int,
{
    if 0 <= q < cs.len() && cs[q] == '|' {
        let (m1, q1, ok1) = rule_scan(cs, q + 1);
        if !ok1 {
            (Seq::empty(), q, false)
        } else if q < q1 <= cs.len() {
            let (ss, e, ok) = alt_more(cs, q1);
            (seq![q + 1] + ss, e, ok)
        } else {
            (Seq::empty(), q, false)
        }
    } else {
        (Seq::empty(), q, true)
    }
}

/// A nonterminal declaration stands at `pos`: name, two typed blocks,
/// `->`, and its alternatives.
pub open spec fn nt_ok(cs: Seq<char>, pos: int) -> bool {
    let p0 = ws_end(cs, pos);
    let le = letters_end(cs, p0);
    let p2 = ws_end(cs, le);
    &&& le > p0
    &&& args_ok(cs, p2)
    &&& ({
        let p4 = ws_end(cs, args_end(cs, p2));
        &&& args_ok(cs, p4)
        &&& ({
            let p6 = ws_end(cs, args_end(cs, p4));
            &&& p6 + 2 <= cs.len()
            &&& cs.subrange(p6, p6 + 2) == "->"@
            &&& alt_scan(cs, p6 + 2).2
        })
    })
}

pub open spec fn nt_end(cs: Seq<char>, pos: int) -> int {
    let p0 = ws_end(cs, pos);
    let le = letters_end(cs, p0);
    let p2 = ws_end(cs, le);
    let p4 = ws_end(cs, args_end(cs, p2));
    let p6 = ws_end(cs, args_end(cs, p4));
    ws_end(cs, alt_scan(cs, p6 + 2).1)
}

/// `nt` holds the declaration read at `pos`: its name, inherited and
/// synthesized attributes, and alternatives, all in source order.
pub open spec fn nt_matches(cs: Seq<char>, pos: int, nt: NotTerminal) -> bool {
    let p0 = ws_end(cs, pos);
    let le = letters_end(cs, p0);
    let p2 = ws_end(cs, le);
    let p4 = ws_end(cs, args_end(cs, p2));
    let p6 = ws_end(cs, args_end(cs, p4));
    let ss = alt_scan(cs, p6 + 2).0;
    &&& nt.name@ == cs.subrange(p0, le)
    &&& args_matches(cs, p2, nt.args@)
    &&& args_matches(cs, p4, nt.returns@)
    &&& nt.rules@.len() == ss.len()
    &&& forall|i: int| 0 <= i < ss.len() ==> rule_matches(cs, #[trigger] ss[i], nt.rules@[i])
}

/// A terminal declaration `Name -> "regex"` stands at `pos`.
pub open spec fn td_ok(cs: Seq<char>, pos: int) -> bool {
    let p0 = ws_end(cs, pos);
    let le = letters_end(cs, p0);
    let p2 = ws_end(cs, le);
    &&& le > p0
    &&& p2 + 2 <= cs.len()
    &&& cs.subrange(p2, p2 + 2) == "->"@
    &&& regex_ok(cs, ws_end(cs, p2 + 2))
}

pub open spec fn td_end(cs: Seq<char>, pos: int) -> int {
    let p0 = ws_end(cs, pos);
    let le = letters_end(cs, p0);
    let p2 = ws_end(cs, le);
    ws_end(cs, regex_end(cs, ws_end(cs, p2 + 2)))
}

/// `t` holds the terminal declaration read at `pos`: its name and its
/// quoted regex, verbatim.
pub open spec fn td_matches(cs: Seq<char>, pos: int, t: Token) -> bool {
    let p0 = ws_end(cs, pos);
    let le = letters_end(cs, p0);
    let p2 = ws_end(cs, le);
    let p3 = ws_end(cs, p2 + 2);
    &&& t.name@ == cs.subrange(p0, le)
    &&& t.regex@ == cs.subrange(p3, regex_end(cs, p3))
}

/// The `;`-separated terminal declarations read from `pos`.
pub open spec fn td_list(cs: Seq<char>, pos: int) -> (Seq<int>, int)
    decreases cs.len() - pos, 1int,
{
    if 0 <= pos && td_ok(cs, pos) && pos < td_end(cs, pos) {
        let (m, e) = td_more(cs, td_end(cs, pos));
        (seq![pos] + m, e)
    } else {
        (Seq::empty(), pos)
    }
}

pub open spec fn td_more(cs: Seq<char>, q: int) -> (Seq<int>, int)
    decreases cs.len() - q, 1int,
{
    if 0 <= q < cs.len() && cs[q] == ';' && td_ok(cs, q + 1) && q < td_end(cs, q + 1) {
        let (m, e) = td_more2(cs, q, td_end(cs, q + 1));
        (seq![q + 1] + m, e)
    } else {
        (Seq::empty(), q)
    }
}

pub open spec fn td_more2(cs: Seq<char>, q: int, k: int) -> (Seq<int>, int)
    decreases cs.len() - q, 0int,
{
    if q < k <= cs.len() {
        td_more(cs, k)
    } else {
        (Seq::empty(), q)
    }
}

/// One skip entry: blanks, then a quoted regex.
pub open spec fn sk_ok(cs: Seq<char>, pos: int) -> bool {
    regex_ok(cs, ws_end(cs, pos))
}

pub open spec fn sk_end(cs: Seq<char>, pos: int) -> int {
    ws_end(cs, regex_end(cs, ws_end(cs, pos)))
}

/// The skip entry at `pos` is the quoted literal `v`, verbatim.
pub open spec fn sk_matches(cs: Seq<char>, pos: int, v: Seq<char>) -> bool {
    let sq = ws_end(cs, pos);
    v == cs.subrange(sq, regex_end(cs, sq))
}

/// The `;`-separated skip entries read from `pos`.
pub open spec fn sk_list(cs: Seq<char>, pos: int) -> (Seq<int>, int)
    decreases cs.len() - pos, 1int,
{
    if 0 <= pos && sk_ok(cs, pos) && pos < sk_end(cs, pos) {
        let (m, e) = sk_more(cs, sk_end(cs, pos));
        (seq![pos] + m, e)
    } else {
        (Seq::empty(), pos)
    }
}

pub open spec fn sk_more(cs: Seq<char>, q: int) -> (Seq<int>, int)
    decreases cs.len() - q, 1int,
{
    if 0 <= q < cs.len() && cs[q] == ';' && sk_ok(cs, q + 1) && q < sk_end(cs, q + 1) {
        let (m, e) = sk_more2(cs, q, sk_end(cs, q + 1));
        (seq![q + 1] + m, e)
    } else {
        (Seq::empty(), q)
    }
}

pub open spec fn sk_more2(cs: Seq<char>, q: int, k: int) -> (Seq<int>, int)
    decreases cs.len() - q, 0int,
{
    if q < k <= cs.len() {
        sk_more(cs, k)
    } else {
        (Seq::empty(), q)
    }
}

/// The `;`-separated nonterminal declarations read from `pos`.
pub open spec fn nts_list(cs: Seq<char>, pos: int) -> (Seq<int>, int)
    decreases cs.len() - pos, 1int,
{
    if 0 <= pos && nt_ok(cs, pos) && pos < nt_end(cs, pos) {
        let (m, e) = nts_more(cs, nt_end(cs, pos));
        (seq![pos] + m, e)
    } else {
        (Seq::empty(), pos)
    }
}

pub open spec fn nts_more(cs: Seq<char>, q: int) -> (Seq<int>, int)
    decreases cs.len() - q, 1int,
{
    if 0 <= q < cs.len() && cs[q] == ';' && nt_ok(cs, q + 1) && q < nt_end(cs, q + 1) {
        let (m, e) = nts_more2(cs, q, nt_end(cs, q + 1));
        (seq![q + 1] + m, e)
    } else {
        (Seq::empty(), q)
    }
}

pub open spec fn nts_more2(cs: Seq<char>, q: int, k: int) -> (Seq<int>, int)
    decreases cs.len() - q, 0int,
{
    if q < k <= cs.len() {
        nts_more(cs, k)
    } else {
        (Seq::empty(), q)
    }
}

/// A section header stands at `pos`: blanks, the keyword, blanks, `{`.
pub open spec fn so_ok(cs: Seq<char>, pos: int, kw: Seq<char>) -> bool {
    let w0 = ws_end(cs, pos);
    let w1 = ws_end(cs, w0 + kw.len());
    &&& w0 + kw.len() <= cs.len()
    &&& cs.subrange(w0, w0 + kw.len()) == kw
    &&& w1 < cs.len() && cs[w1] == '{'
}

pub open spec fn so_end(cs: Seq<char>, pos: int, kw: Seq<char>) -> int {
    ws_end(cs, ws_end(cs, pos) + kw.len()) + 1
}

/// A block close stands at `pos`: blanks, an optional `;`, blanks, `}`.
pub open spec fn ct_ok(cs: Seq<char>, pos: int) -> bool {
    let p = ws_end(cs, pos);
    if 0 <= p < cs.len() && cs[p] == ';' {
        let p2 = ws_end(cs, p + 1);
        p2 < cs.len() && cs[p2] == '}'
    } else {
        p < cs.len() && cs[p] == '}'
    }
}

pub open spec fn ct_end(cs: Seq<char>, pos: int) -> int {
    let p = ws_end(cs, pos);
    if 0 <= p < cs.len() && cs[p] == ';' {
        ws_end(cs, ws_end(cs, p + 1) + 1)
    } else {
        ws_end(cs, p + 1)
    }
}

/// The whole description conforms to the §6 grammar: the four sections
/// in their fixed order, each with its delimiters.
pub open spec fn meta_ok(cs: Seq<char>) -> bool {
    &&& so_ok(cs, 0, "Prelude"@)
    &&& braced_ok(cs, so_end(cs, 0, "Prelude"@) - 1)
    &&& ({
        let p1 = braced_end(cs, so_end(cs, 0, "Prelude"@) - 1);
        &&& so_ok(cs, p1, "Skip"@)
        &&& ct_ok(cs, sk_list(cs, so_end(cs, p1, "Skip"@)).1)
        &&& ({
            let p3 = ct_end(cs, sk_list(cs, so_end(cs, p1, "Skip"@)).1);
            &&& so_ok(cs, p3, "Tokens"@)
            &&& ct_ok(cs, td_list(cs, so_end(cs, p3, "Tokens"@)).1)
            &&& ({
                let p5 = ct_end(cs, td_list(cs, so_end(cs, p3, "Tokens"@)).1);
                &&& so_ok(cs, p5, "NotTerminals"@)
                &&& ct_ok(cs, nts_list(cs, so_end(cs, p5, "NotTerminals"@)).1)
            })
        })
    })
}

/// Where reading the whole description stops.
pub open spec fn meta_end(cs: Seq<char>) -> int {
    let p1 = braced_end(cs, so_end(cs, 0, "Prelude"@) - 1);
    let p3 = ct_end(cs, sk_list(cs, so_end(cs, p1, "Skip"@)).1);
    let p5 = ct_end(cs, td_list(cs, so_end(cs, p3, "Tokens"@)).1);
    ct_end(cs, nts_list(cs, so_end(cs, p5, "NotTerminals"@)).1)
}

/// `pd` is the reading of the description `cs`: the prelude text
/// verbatim, the skip literals in order, the terminal declarations in
/// order, and the nonterminal declarations in order, each pinned to its
/// slice of the input.
pub open spec fn meta_parsed(cs: Seq<char>, pd: ParserDescription) -> bool {
    let p1 = braced_end(cs, so_end(cs, 0, "Prelude"@) - 1);
    let sks = sk_list(cs, so_end(cs, p1, "Skip"@)).0;
    let p3 = ct_end(cs, sk_list(cs, so_end(cs, p1, "Skip"@)).1);
    let tds = td_list(cs, so_end(cs, p3, "Tokens"@)).0;
    let p5 = ct_end(cs, td_list(cs, so_end(cs, p3, "Tokens"@)).1);
    let nts = nts_list(cs, so_end(cs, p5, "NotTerminals"@)).0;
    &&& meta_ok(cs)
    &&& pd.prelude@ == cs.subrange(
        so_end(cs, 0, "Prelude"@),
        bal_end(cs, so_end(cs, 0, "Prelude"@), '{', '}'),
    )
    &&& pd.skip@.len() == sks.len()
    &&& (forall|i: int| 0 <= i < sks.len() ==> sk_matches(cs, #[trigger] sks[i], pd.skip@[i]@))
    &&& pd.tokens@.len() == tds.len()
    &&& (forall|i: int| 0 <= i < tds.len() ==> td_matches(cs, #[trigger] tds[i], pd.tokens@[i]))
    &&& pd.not_terminal@.len() == nts.len()
    &&& (forall|i: int| 0 <= i < nts.len() ==> nt_matches(cs, #[trigger] nts[i], pd.not_terminal@[i]))
}

proof fn lemma_typed_bounds(cs: Seq<char>, q: int)
    requires
        0 <= q <= cs.len(),
        typed_ok(cs, q),
    ensures
        q < typed_end(cs, q) <= cs.len(),
{
    lemma_ws_end_ge(cs, q);
    let p0 = ws_end(cs, q);
    lemma_till2_end_ge(cs, p0, '#', '}');
    let ne = till2_end(cs, p0, '#', '}');
    lemma_ws_end_ge(cs, ne + 1);
    let p1 = ws_end(cs, ne + 1);
    lemma_till2_end_ge(cs, p1, ';', '}');
}

proof fn lemma_regex_bounds(cs: Seq<char>, q: int)
    requires
        0 <= q,
        regex_ok(cs, q),
    ensures
        q + 1 < regex_end(cs, q) <= cs.len(),
{
    lemma_till2_end_ge(cs, q + 1, '"', '"');
}

proof fn lemma_braced_bounds(cs: Seq<char>, q: int)
    requires
        0 <= q,
        braced_ok(cs, q),
    ensures
        q < braced_end(cs, q) <= cs.len(),
{
    lemma_bal_end_ge(cs, q + 1, '{', '}');
}

proof fn lemma_rtok_bounds(cs: Seq<char>, q: int)
    requires
        0 <= q <= cs.len(),
        rtok_ok(cs, q),
    ensures
        q < rtok_end(cs, q) <= cs.len(),
{
    lemma_letters_end_ge(cs, q);
    let le = letters_end(cs, q);
    lemma_ws_end_ge(cs, le);
    let p2 = ws_end(cs, le);
    if p2 < cs.len() && cs[p2] == '(' {
        lemma_bal_end_ge(cs, p2 + 1, '(', ')');
    }
}

proof fn lemma_td_bounds(cs: Seq<char>, q: int)
    requires
        0 <= q <= cs.len(),
        td_ok(cs, q),
    ensures
        q < td_end(cs, q) <= cs.len(),
{
    lemma_ws_end_ge(cs, q);
    let p0 = ws_end(cs, q);
    lemma_letters_end_ge(cs, p0);
    let le = letters_end(cs, p0);
    lemma_ws_end_ge(cs, le);
    let p2 = ws_end(cs, le);
    lemma_ws_end_ge(cs, p2 + 2);
    let p3 = ws_end(cs, p2 + 2);
    lemma_regex_bounds(cs, p3);
    lemma_ws_end_ge(cs, regex_end(cs, p3));
}

proof fn lemma_sk_bounds(cs: Seq<char>, q: int)
    requires
        0 <= q <= cs.len(),
        sk_ok(cs, q),
    ensures
        q < sk_end(cs, q) <= cs.len(),
{
    lemma_ws_end_ge(cs, q);
    let sq = ws_end(cs, q);
    lemma_regex_bounds(cs, sq);
    lemma_ws_end_ge(cs, regex_end(cs, sq));
}

proof fn lemma_rs_loop_bounds(cs: Seq<char>, p: int)
    requires
        0 <= p <= cs.len(),
    ensures
        p <= rs_loop(cs, p).1,
        rs_loop(cs, p).1 <= cs.len(),
    decreases cs.len() - p, 1int,
{
    if 0 <= p < cs.len() {
        if is_letter(cs[p]) {
            if rtok_ok(cs, p) {
                lemma_rtok_bounds(cs, p);
                lemma_ws_end_ge(cs, rtok_end(cs, p));
                let k = ws_end(cs, rtok_end(cs, p));
                if p < k {
                    lemma_rs_loop_bounds(cs, k);
                }
            }
        } else if cs[p] == '{' {
            if braced_ok(cs, p) {
                lemma_braced_bounds(cs, p);
                lemma_ws_end_ge(cs, braced_end(cs, p));
                let k = ws_end(cs, braced_end(cs, p));
                if p < k {
                    lemma_rs_loop_bounds(cs, k);
                }
            }
        }
    }
}

proof fn lemma_rule_scan_bounds(cs: Seq<char>, q: int)
    requires
        0 <= q <= cs.len(),
    ensures
        q <= rule_scan(cs, q).1,
        rule_scan(cs, q).1 <= cs.len(),
{
    lemma_ws_end_ge(cs, q);
    lemma_rs_loop_bounds(cs, ws_end(cs, q));
}

proof fn lemma_alt_more_bounds(cs: Seq<char>, q: int)
    requires
        0 <= q <= cs.len(),
    ensures
        q <= alt_more(cs, q).1,
        alt_more(cs, q).1 <= cs.len(),
    decreases cs.len() - q, 1int,
{
    if 0 <= q < cs.len() && cs[q] == '|' {
        lemma_rule_scan_bounds(cs, q + 1);
        let q1 = rule_scan(cs, q + 1).1;
        if rule_scan(cs, q + 1).2 && q < q1 <= cs.len() {
            lemma_alt_more_bounds(cs, q1);
        }
    }
}

proof fn lemma_alt_scan_bounds(cs: Seq<char>, q: int)
    requires
        0 <= q <= cs.len(),
    ensures
        q <= alt_scan(cs, q).1,
        alt_scan(cs, q).1 <= cs.len(),
{
    lemma_rule_scan_bounds(cs, q);
    let q0 = rule_scan(cs, q).1;
    if rule_scan(cs, q).2 && q <= q0 <= cs.len() {
        lemma_alt_more_bounds(cs, q0);
    }
}

proof fn lemma_args_bounds(cs: Seq<char>, q: int)
    requires
        0 <= q <= cs.len(),
        args_ok(cs, q),
    ensures
        q < args_end(cs, q) <= cs.len(),
{
    lemma_typed_list_bounds(cs, q + 1);
}

proof fn lemma_typed_list_bounds(cs: Seq<char>, q: int)
    requires
        0 <= q <= cs.len(),
    ensures
        q <= typed_list(cs, q).1,
        typed_list(cs, q).1 <= cs.len(),
{
    if typed_ok(cs, q) {
        lemma_typed_bounds(cs, q);
        let e = typed_end(cs, q);
        if q < e {
            lemma_typed_more_bounds(cs, e);
        }
    }
}

proof fn lemma_typed_more_bounds(cs: Seq<char>, q: int)
    requires
        0 <= q <= cs.len(),
    ensures
        q <= typed_more(cs, q).1,
        typed_more(cs, q).1 <= cs.len(),
    decreases cs.len() - q, 1int,
{
    if 0 <= q < cs.len() && cs[q] == ';' && typed_ok(cs, q + 1) {
        lemma_typed_bounds(cs, q + 1);
        let e = typed_end(cs, q + 1);
        if q < e <= cs.len() {
            lemma_typed_more_bounds(cs, e);
        }
    }
}

proof fn lemma_nt_bounds(cs: Seq<char>, q: int)
    requires
        0 <= q <= cs.len(),
        nt_ok(cs, q),
    ensures
        q < nt_end(cs, q) <= cs.len(),
{
    lemma_ws_end_ge(cs, q);
    let p0 = ws_end(cs, q);
    lemma_letters_end_ge(cs, p0);
    let le = letters_end(cs, p0);
    lemma_ws_end_ge(cs, le);
    let p2 = ws_end(cs, le);
    lemma_args_bounds(cs, p2);
    lemma_ws_end_ge(cs, args_end(cs, p2));
    let p4 = ws_end(cs, args_end(cs, p2));
    lemma_args_bounds(cs, p4);
    lemma_ws_end_ge(cs, args_end(cs, p4));
    let p6 = ws_end(cs, args_end(cs, p4));
    lemma_alt_scan_bounds(cs, p6 + 2);
    lemma_ws_end_ge(cs, alt_scan(cs, p6 + 2).1);
}

/// The characters of the input, for positional scanning.
fn to_char_vec(s: &str) -> (v: Vec<char>)
    ensures
        v@ == s@,
{
    let n = s.unicode_len();
    let mut v: Vec<char> = Vec::new();
    let mut i: usize = 0;
    while i < n
        invariant
            n == s@.len(),
            i <= n,
            v@ == s@.subrange(0, i as int),
        decreases n - i,
    {
        let c = s.get_char(i);
        v.push(c);
        proof {
            assert(v@ =~= s@.subrange(0, i + 1));
        }
        i = i + 1;
    }
    proof {
        assert(v@ =~= s@);
    }
    v
}

/// The text of `s` between character offsets `a` and `b`.
fn substring(s: &str, a: usize, b: usize) -> (r: String)
    requires
        a <= b <= s@.len(),
    ensures
        r@ == s@.subrange(a as int, b as int),
{
    String::from_str(s.substring_char(a, b))
}

fn skip_ws(cs: &Vec<char>, pos: usize) -> (r: usize)
    requires
        pos <= cs@.len(),
    ensures
        pos <= r <= cs@.len(),
        r == ws_end(cs@, pos as int),
        forall|i: int| pos <= i < r ==> is_ws(#[trigger] cs@[i]),
        r < cs@.len() ==> !is_ws(cs@[r as int]),
    decreases cs@.len() - pos,
{
    if pos < cs.len() {
        let c = cs[pos];
        if c == ' ' || c == '\n' || c == '\r' || c == '\t' {
            return skip_ws(cs, pos + 1);
        }
    }
    pos
}

/// Does the literal `tag` stand at offset `pos`?
fn tag_at(cs: &Vec<char>, pos: usize, tag: &str) -> (r: bool)
    requires
        pos <= cs@.len(),
    ensures
        r == (pos + tag@.len() <= cs@.len() && cs@.subrange(pos as int, pos + tag@.len())
            == tag@),
{
    let tn = tag.unicode_len();
    let csl = cs.len();
    if tn > csl - pos {
        return false;
    }
    let mut i: usize = 0;
    while i < tn
        invariant
            tn == tag@.len(),
            csl == cs@.len(),
            pos + tn <= csl,
            i <= tn,
            forall|j: int| 0 <= j < i ==> cs@[pos + j] == tag@[j],
        decreases tn - i,
    {
        if cs[pos + i] != tag.get_char(i) {
            proof {
                assert(cs@.subrange(pos as int, pos + tn)[i as int] != tag@[i as int]);
            }
            return false;
        }
        i = i + 1;
    }
    proof {
        assert(cs@.subrange(pos as int, pos + tn) =~= tag@);
    }
    true
}

fn meta_err(pos: usize, msg: &str) -> (e: MetaParseError)
    ensures
        e.position == pos,
        e.message@ == msg@,
{
    MetaParseError { position: pos, message: String::from_str(msg) }
}

/// The end of the run of ASCII letters starting at `pos`.
fn scan_letters(cs: &Vec<char>, pos: usize) -> (r: usize)
    requires
        pos <= cs@.len(),
    ensures
        pos <= r <= cs@.len(),
        r == letters_end(cs@, pos as int),
        forall|i: int| pos <= i < r ==> is_letter(#[trigger] cs@[i]),
        r < cs@.len() ==> !is_letter(cs@[r as int]),
    decreases cs@.len() - pos,
{
    if pos < cs.len() {
        let c = cs[pos];
        if (c >= 'a' && c <= 'z') || (c >= 'A' && c <= 'Z') {
            return scan_letters(cs, pos + 1);
        }
    }
    pos
}

/// An identifier: one or more ASCII letters.
fn parse_ident(s: &str, cs: &Vec<char>, pos: usize) -> (r: Result<(String, usize), MetaParseError>)
    requires
        cs@ == s@,
        pos <= cs@.len(),
    ensures
        match r {
            Ok((name, p)) => pos < p <= cs@.len() && p == letters_end(cs@, pos as int) && name@
                == cs@.subrange(pos as int, p as int) && name@.len() > 0 && (forall|i: int|
                0 <= i < name@.len() ==> is_letter(#[trigger] name@[i])),
            Err(e) => e.position == pos && letters_end(cs@, pos as int) == pos,
        },
{
    let e = scan_letters(cs, pos);
    if e == pos {
        return Err(meta_err(pos, "Expected identifier"));
    }
    let name = substring(s, pos, e);
    Ok((name, e))
}

/// The end of the longest balanced-bracket region starting at `pos`: a
/// mix of non-bracket text and complete nested pairs, stopping before an
/// unmatched closing bracket, before an opening bracket whose partner is
/// missing, or at the end of the input.
fn balanced_end(cs: &Vec<char>, pos: usize, lb: char, rb: char) -> (r: usize)
    requires
        pos <= cs@.len(),
    ensures
        pos <= r <= cs@.len(),
        r == bal_end(cs@, pos as int, lb, rb),
    decreases cs@.len() - pos,
{
    if pos >= cs.len() {
        return pos;
    }
    let c = cs[pos];
    if c == rb {
        return pos;
    }
    if c == lb {
        let j = balanced_end(cs, pos + 1, lb, rb);
        if j < cs.len() && cs[j] == rb {
            let e = balanced_end(cs, j + 1, lb, rb);
            proof {
                assert(bal_end_from(cs@, pos as int, j + 1, lb, rb) == bal_end(
                    cs@,
                    j + 1,
                    lb,
                    rb,
                ));
            }
            return e;
        }
        return pos;
    }
    balanced_end(cs, pos + 1, lb, rb)
}

/// A balanced-brace block after `{`: the verbatim inner text and the
/// offset of the matching `}`.
fn parse_braced(s: &str, cs: &Vec<char>, pos: usize) -> (r: Result<
    (String, usize),
    MetaParseError,
>)
    requires
        cs@ == s@,
        pos <= cs@.len(),
    ensures
        match r {
            Ok((text, p)) => {
                &&& braced_ok(cs@, pos as int)
                &&& p == braced_end(cs@, pos as int)
                &&& pos < p <= cs@.len()
                &&& text@ == cs@.subrange(pos + 1, bal_end(cs@, pos + 1, '{', '}'))
            },
            Err(e) => !braced_ok(cs@, pos as int),
        },
{
    if !(pos < cs.len() && cs[pos] == '{') {
        return Err(meta_err(pos, "Expected '{'"));
    }
    let e = balanced_end(cs, pos + 1, '{', '}');
    if !(e < cs.len() && cs[e] == '}') {
        return Err(meta_err(e, "Expected '}'"));
    }
    let text = substring(s, pos + 1, e);
    Ok((text, e + 1))
}

/// A quoted regular-expression literal; the quotes are kept in the result.
fn parse_regex(s: &str, cs: &Vec<char>, pos: usize) -> (r: Result<
    (String, usize),
    MetaParseError,
>)
    requires
        cs@ == s@,
        pos <= cs@.len(),
    ensures
        match r {
            Ok((text, p)) => {
                &&& regex_ok(cs@, pos as int)
                &&& p == regex_end(cs@, pos as int)
                &&& pos < p <= cs@.len()
                &&& text@ == cs@.subrange(pos as int, regex_end(cs@, pos as int))
                &&& text@.len() >= 3
            },
            Err(e) => !regex_ok(cs@, pos as int),
        },
{
    if !(pos < cs.len() && cs[pos] == '"') {
        return Err(meta_err(pos, "Expected '\"'"));
    }
    let e = scan_till2(cs, pos + 1, '"', '"');
    if e == pos + 1 {
        return Err(meta_err(pos + 1, "Expected regex text"));
    }
    if !(e < cs.len()) {
        return Err(meta_err(e, "Expected '\"'"));
    }
    let text = substring(s, pos, e + 1);
    proof {
        assert(text@.len() == e + 1 - pos >= 3);
    }
    Ok((text, e + 1))
}

/// A typed attribute: `name # type`, the name running to the `#`, the type
/// to the next `;` or `}`; both are trimmed and must be non-empty.
fn parse_typed(s: &str, cs: &Vec<char>, pos: usize) -> (r: Result<(Typed, usize), MetaParseError>)
    requires
        cs@ == s@,
        pos <= cs@.len(),
    ensures
        match r {
            Ok((t, p)) => {
                &&& typed_ok(cs@, pos as int)
                &&& p == typed_end(cs@, pos as int)
                &&& pos <= p <= cs@.len()
                &&& typed_matches(cs@, pos as int, t)
                &&& t.name@.len() > 0
                &&& t.ty@.len() > 0
            },
            Err(e) => !typed_ok(cs@, pos as int),
        },
{
    let p0 = skip_ws(cs, pos);
    let name_end = scan_till2(cs, p0, '#', '}');
    if name_end == p0 {
        return Err(meta_err(p0, "Expected attribute name"));
    }
    if !(name_end < cs.len() && cs[name_end] == '#') {
        return Err(meta_err(name_end, "Expected '#'"));
    }
    let p1 = skip_ws(cs, name_end + 1);
    let ty_end = scan_till2(cs, p1, ';', '}');
    if ty_end == p1 {
        return Err(meta_err(p1, "Expected attribute type"));
    }
    let (na, nb) = trim_range(cs, p0, name_end);
    let (ta, tb) = trim_range(cs, p1, ty_end);
    if na >= nb {
        return Err(meta_err(pos, "Expected attribute name"));
    }
    if ta >= tb {
        return Err(meta_err(pos, "Expected attribute type"));
    }
    let name = substring(s, na, nb);
    let ty = substring(s, ta, tb);
    Ok((Typed { name, ty }, ty_end))
}

/// The end of the run of characters before the first occurrence of one of
/// the two stop characters.
fn scan_till2(cs: &Vec<char>, pos: usize, s1: char, s2: char) -> (r: usize)
    requires
        pos <= cs@.len(),
    ensures
        pos <= r <= cs@.len(),
        r == till2_end(cs@, pos as int, s1, s2),
        forall|i: int| pos <= i < r ==> (#[trigger] cs@[i]) != s1 && cs@[i] != s2,
        r < cs@.len() ==> cs@[r as int] == s1 || cs@[r as int] == s2,
    decreases cs@.len() - pos,
{
    if pos < cs.len() {
        let c = cs[pos];
        if c != s1 && c != s2 {
            return scan_till2(cs, pos + 1, s1, s2);
        }
    }
    pos
}

/// The largest sub-range of `[a, b)` with no leading or trailing blanks.
fn trim_range(cs: &Vec<char>, a: usize, b: usize) -> (r: (usize, usize))
    requires
        a <= b <= cs@.len(),
    ensures
        a <= r.0 <= cs@.len(),
        r.0 <= r.1 <= b,
        (r.0 as int, r.1 as int) == trim_s(cs@, a as int, b as int),
    decreases b - a,
{
    if a < b {
        let c = cs[a];
        if c == ' ' || c == '\n' || c == '\r' || c == '\t' {
            return trim_range(cs, a + 1, b);
        }
        let d = cs[b - 1];
        if d == ' ' || d == '\n' || d == '\r' || d == '\t' {
            return trim_range(cs, a, b - 1);
        }
    }
    (a, b)
}

/// A `{`-delimited, `;`-separated list of typed attributes.
fn parse_args(s: &str, cs: &Vec<char>, pos: usize) -> (r: Result<
    (Vec<Typed>, usize),
    MetaParseError,
>)
    requires
        cs@ == s@,
        pos <= cs@.len(),
    ensures
        match r {
            Ok((v, p)) => {
                &&& args_ok(cs@, pos as int)
                &&& p == args_end(cs@, pos as int)
                &&& pos < p <= cs@.len()
                &&& args_matches(cs@, pos as int, v@)
            },
            Err(e) => !args_ok(cs@, pos as int),
        },
{
    if !(pos < cs.len() && cs[pos] == '{') {
        return Err(meta_err(pos, "Expected '{'"));
    }
    let ghost gl = typed_list(cs@, pos + 1);
    let mut items: Vec<Typed> = Vec::new();
    let ghost mut done: Seq<int> = Seq::empty();
    let mut p = pos + 1;
    match parse_typed(s, cs, p) {
        Ok((t, p2)) => {
            proof {
                lemma_typed_bounds(cs@, p as int);
                done = seq![p as int];
                assert(gl.0 =~= done + typed_more(cs@, p2 as int).0);
                assert(gl.1 == typed_more(cs@, p2 as int).1);
            }
            items.push(t);
            p = p2;
            let mut go = true;
            while go
                invariant
                    cs@ == s@,
                    pos < p <= cs@.len(),
                    gl == typed_list(cs@, pos + 1),
                    gl.0 == done + typed_more(cs@, p as int).0,
                    gl.1 == typed_more(cs@, p as int).1,
                    items@.len() == done.len(),
                    forall|i: int|
                        0 <= i < done.len() ==> typed_matches(cs@, #[trigger] done[i], items@[i]),
                    !go ==> typed_more(cs@, p as int).0 =~= Seq::<int>::empty() && typed_more(
                        cs@,
                        p as int,
                    ).1 == p,
                decreases cs@.len() - p + (if go {
                    1int
                } else {
                    0int
                }),
            {
                if p < cs.len() && cs[p] == ';' {
                    match parse_typed(s, cs, p + 1) {
                        Ok((t2, p3)) => {
                            proof {
                                lemma_typed_bounds(cs@, p + 1);
                                assert(typed_more2(cs@, p as int, p3 as int) == typed_more(
                                    cs@,
                                    p3 as int,
                                ));
                                assert(typed_more(cs@, p as int).0 =~= seq![p + 1] + typed_more(
                                    cs@,
                                    p3 as int,
                                ).0);
                                assert(typed_more(cs@, p as int).1 == typed_more(
                                    cs@,
                                    p3 as int,
                                ).1);
                                let d0 = done;
                                done = d0 + seq![p + 1];
                                assert(gl.0 =~= done + typed_more(cs@, p3 as int).0);
                            }
                            items.push(t2);
                            p = p3;
                        },
                        Err(_) => {
                            proof {
                                assert(typed_more(cs@, p as int).0 =~= Seq::<int>::empty());
                            }
                            go = false;
                        },
                    }
                } else {
                    proof {
                        assert(typed_more(cs@, p as int).0 =~= Seq::<int>::empty());
                    }
                    go = false;
                }
            }
        },
        Err(_) => {
            proof {
                assert(gl.0 =~= done + Seq::<int>::empty());
                assert(gl.1 == pos + 1);
            }
        },
    }
    proof {
        assert(gl.0 =~= done);
        assert(gl.1 == p);
    }
    if !(p < cs.len() && cs[p] == '}') {
        return Err(meta_err(p, "Expected '}'"));
    }
    proof {
        assert(args_ok(cs@, pos as int));
        assert(args_matches(cs@, pos as int, items@));
    }
    Ok((items, p + 1))
}

/// A call member: an identifier with an optional parenthesized argument
/// block, which defaults to `()`.
fn parse_rule_token(s: &str, cs: &Vec<char>, pos: usize) -> (r: Result<
    (RuleMember, usize),
    MetaParseError,
>)
    requires
        cs@ == s@,
        pos <= cs@.len(),
    ensures
        match r {
            Ok((m, p)) => {
                &&& rtok_ok(cs@, pos as int)
                &&& p == rtok_end(cs@, pos as int)
                &&& pos < p <= cs@.len()
                &&& member_matches(cs@, pos as int, m)
            },
            Err(e) => !rtok_ok(cs@, pos as int),
        },
{
    let (name, p1) = match parse_ident(s, cs, pos) {
        Ok(x) => x,
        Err(e) => {
            return Err(e);
        },
    };
    let p2 = skip_ws(cs, p1);
    if p2 < cs.len() && cs[p2] == '(' {
        let e = balanced_end(cs, p2 + 1, '(', ')');
        if e < cs.len() && cs[e] == ')' {
            let args = substring(s, p2, e + 1);
            return Ok((RuleMember::RuleCall(RuleToken { name, args }), e + 1));
        }
        return Err(meta_err(e, "Expected ')'"));
    }
    Ok((RuleMember::RuleCall(RuleToken { name, args: String::from_str("()") }), p1))
}

/// One alternative: whitespace-separated members, each a call or a
/// verbatim `{ ... }` fragment; possibly empty.
fn parse_rule(s: &str, cs: &Vec<char>, pos: usize) -> (r: Result<(Rule, usize), MetaParseError>)
    requires
        cs@ == s@,
        pos <= cs@.len(),
    ensures
        match r {
            Ok((rl, p)) => {
                &&& rule_scan(cs@, pos as int).2
                &&& p == rule_scan(cs@, pos as int).1
                &&& pos <= p <= cs@.len()
                &&& rule_matches(cs@, pos as int, rl)
            },
            Err(e) => !rule_scan(cs@, pos as int).2,
        },
{
    let ghost gs = rule_scan(cs@, pos as int);
    let mut members: Vec<RuleMember> = Vec::new();
    let ghost mut done: Seq<int> = Seq::empty();
    let mut p = skip_ws(cs, pos);
    proof {
        lemma_ws_end_ge(cs@, pos as int);
        assert(gs == rs_loop(cs@, p as int));
    }
    let mut go = true;
    while go
        invariant
            cs@ == s@,
            pos <= p <= cs@.len(),
            gs == rule_scan(cs@, pos as int),
            gs.0 == done + rs_loop(cs@, p as int).0,
            gs.1 == rs_loop(cs@, p as int).1,
            gs.2 == rs_loop(cs@, p as int).2,
            members@.len() == done.len(),
            forall|i: int|
                0 <= i < done.len() ==> member_matches(cs@, #[trigger] done[i], members@[i]),
            !go ==> rs_loop(cs@, p as int).0 =~= Seq::<int>::empty() && rs_loop(cs@, p as int).1
                == p && rs_loop(cs@, p as int).2,
        decreases cs@.len() - p + (if go {
            1int
        } else {
            0int
        }),
    {
        if p >= cs.len() {
            proof {
                assert(rs_loop(cs@, p as int).0 =~= Seq::<int>::empty());
            }
            go = false;
        } else {
            let c = cs[p];
            if (c >= 'a' && c <= 'z') || (c >= 'A' && c <= 'Z') {
                match parse_rule_token(s, cs, p) {
                    Ok((m, p2)) => {
                        let p3 = skip_ws(cs, p2);
                        proof {
                            lemma_rtok_bounds(cs@, p as int);
                            lemma_ws_end_ge(cs@, p2 as int);
                            assert(rs_step(cs@, p as int, p3 as int) == rs_loop(cs@, p3 as int));
                            assert(rs_loop(cs@, p as int).0 =~= seq![p as int] + rs_loop(
                                cs@,
                                p3 as int,
                            ).0);
                            assert(rs_loop(cs@, p as int).1 == rs_loop(cs@, p3 as int).1);
                            assert(rs_loop(cs@, p as int).2 == rs_loop(cs@, p3 as int).2);
                            let d0 = done;
                            done = d0 + seq![p as int];
                            assert(gs.0 =~= done + rs_loop(cs@, p3 as int).0);
                        }
                        members.push(m);
                        p = p3;
                    },
                    Err(e) => {
                        proof {
                            assert(!rs_loop(cs@, p as int).2);
                        }
                        return Err(e);
                    },
                }
            } else if c == '{' {
                match parse_braced(s, cs, p) {
                    Ok((text, p2)) => {
                        let p3 = skip_ws(cs, p2);
                        proof {
                            lemma_braced_bounds(cs@, p as int);
                            lemma_ws_end_ge(cs@, p2 as int);
                            assert(rs_step(cs@, p as int, p3 as int) == rs_loop(cs@, p3 as int));
                            assert(rs_loop(cs@, p as int).0 =~= seq![p as int] + rs_loop(
                                cs@,
                                p3 as int,
                            ).0);
                            assert(rs_loop(cs@, p as int).1 == rs_loop(cs@, p3 as int).1);
                            assert(rs_loop(cs@, p as int).2 == rs_loop(cs@, p3 as int).2);
                            let d0 = done;
                            done = d0 + seq![p as int];
                            assert(gs.0 =~= done + rs_loop(cs@, p3 as int).0);
                            assert(member_matches(cs@, p as int, RuleMember::Command(text)));
                        }
                        members.push(RuleMember::Command(text));
                        p = p3;
                    },
                    Err(e) => {
                        proof {
                            assert(!rs_loop(cs@, p as int).2);
                        }
                        return Err(e);
                    },
                }
            } else {
                proof {
                    assert(rs_loop(cs@, p as int).0 =~= Seq::<int>::empty());
                }
                go = false;
            }
        }
    }
    proof {
        assert(gs.0 =~= done);
        assert(rule_matches(cs@, pos as int, Rule { members: members }));
    }
    Ok((Rule { members }, p))
}

/// A nonterminal declaration: name, inherited attributes, synthesized
/// attributes, `->`, and one or more `|`-separated alternatives.
fn parse_not_terminal(s: &str, cs: &Vec<char>, pos: usize) -> (r: Result<
    (NotTerminal, usize),
    MetaParseError,
>)
    requires
        cs@ == s@,
        pos <= cs@.len(),
    ensures
        match r {
            Ok((nt, p)) => {
                &&& nt_ok(cs@, pos as int)
                &&& p == nt_end(cs@, pos as int)
                &&& pos <= p <= cs@.len()
                &&& nt_matches(cs@, pos as int, nt)
                &&& nt.name@.len() > 0
                &&& nt.rules@.len() >= 1
            },
            Err(e) => !nt_ok(cs@, pos as int),
        },
{
    let p0 = skip_ws(cs, pos);
    let (name, p1) = match parse_ident(s, cs, p0) {
        Ok(x) => x,
        Err(e) => {
            return Err(e);
        },
    };
    let p2 = skip_ws(cs, p1);
    let (args, p3) = match parse_args(s, cs, p2) {
        Ok(x) => x,
        Err(e) => {
            return Err(e);
        },
    };
    let p4 = skip_ws(cs, p3);
    let (rets, p5) = match parse_args(s, cs, p4) {
        Ok(x) => x,
        Err(e) => {
            return Err(e);
        },
    };
    let p6 = skip_ws(cs, p5);
    proof {
        reveal_strlit("->");
    }
    if !tag_at(cs, p6, "->") {
        return Err(meta_err(p6, "Expected '->'"));
    }
    let csl = cs.len();
    proof {
        assert(p6 + 2 <= csl);
    }
    let ghost ga = alt_scan(cs@, p6 + 2);
    let mut rules: Vec<Rule> = Vec::new();
    let ghost mut done: Seq<int> = Seq::empty();
    let (rl, mut p) = match parse_rule(s, cs, p6 + 2) {
        Ok(x) => x,
        Err(e) => {
            proof {
                assert(!alt_scan(cs@, p6 + 2).2);
            }
            return Err(e);
        },
    };
    rules.push(rl);
    proof {
        lemma_rule_scan_bounds(cs@, p6 + 2);
        done = seq![p6 + 2];
        assert(ga.0 =~= done + alt_more(cs@, p as int).0);
        assert(ga.1 == alt_more(cs@, p as int).1);
        assert(ga.2 == alt_more(cs@, p as int).2);
    }
    let mut go = true;
    while go
        invariant
            cs@ == s@,
            p6 + 2 <= cs@.len(),
            pos <= p <= cs@.len(),
            ga == alt_scan(cs@, p6 + 2),
            p6 == ws_end(
                cs@,
                args_end(
                    cs@,
                    ws_end(cs@, args_end(cs@, ws_end(cs@, letters_end(cs@, ws_end(cs@, pos as int))))),
                ),
            ),
            ga.0 == done + alt_more(cs@, p as int).0,
            ga.1 == alt_more(cs@, p as int).1,
            ga.2 == alt_more(cs@, p as int).2,
            rules@.len() == done.len(),
            rules@.len() >= 1,
            forall|i: int|
                0 <= i < done.len() ==> rule_matches(cs@, #[trigger] done[i], rules@[i]),
            !go ==> alt_more(cs@, p as int).0 =~= Seq::<int>::empty() && alt_more(
                cs@,
                p as int,
            ).1 == p && alt_more(cs@, p as int).2,
        decreases cs@.len() - p + (if go {
            1int
        } else {
            0int
        }),
    {
        if p < cs.len() && cs[p] == '|' {
            match parse_rule(s, cs, p + 1) {
                Ok((rl2, pn)) => {
                    proof {
                        lemma_rule_scan_bounds(cs@, p + 1);
                        assert(alt_more(cs@, p as int).0 =~= seq![p + 1] + alt_more(
                            cs@,
                            pn as int,
                        ).0);
                        assert(alt_more(cs@, p as int).1 == alt_more(cs@, pn as int).1);
                        assert(alt_more(cs@, p as int).2 == alt_more(cs@, pn as int).2);
                        let d0 = done;
                        done = d0 + seq![p + 1];
                        assert(ga.0 =~= done + alt_more(cs@, pn as int).0);
                    }
                    rules.push(rl2);
                    p = pn;
                },
                Err(e) => {
                    proof {
                        assert(!alt_more(cs@, p as int).2);
                    }
                    return Err(e);
                },
            }
        } else {
            proof {
                assert(alt_more(cs@, p as int).0 =~= Seq::<int>::empty());
            }
            go = false;
        }
    }
    let pe = skip_ws(cs, p);
    proof {
        assert(ga.0 =~= done);
        assert(nt_ok(cs@, pos as int));
        assert(nt_matches(cs@, pos as int, NotTerminal { name: name, args: args, returns: rets, rules: rules }));
    }
    Ok((NotTerminal { name, args, returns: rets, rules }, pe))
}

/// `;`-terminated block close: an optional trailing `;`, then `}`.
fn parse_close_tag(s: &str, cs: &Vec<char>, pos: usize) -> (r: Result<usize, MetaParseError>)
    requires
        cs@ == s@,
        pos <= cs@.len(),
    ensures
        match r {
            Ok(p) => ct_ok(cs@, pos as int) && p == ct_end(cs@, pos as int) && pos <= p
                <= cs@.len(),
            Err(e) => !ct_ok(cs@, pos as int),
        },
{
    let mut p = skip_ws(cs, pos);
    if p < cs.len() && cs[p] == ';' {
        p = skip_ws(cs, p + 1);
    }
    if !(p < cs.len() && cs[p] == '}') {
        return Err(meta_err(p, "Expected '}'"));
    }
    Ok(skip_ws(cs, p + 1))
}

/// A section header: whitespace, the keyword, whitespace, `{`.
fn parse_section_open(s: &str, cs: &Vec<char>, pos: usize, kw: &str) -> (r: Result<
    usize,
    MetaParseError,
>)
    requires
        cs@ == s@,
        pos <= cs@.len(),
    ensures
        match r {
            Ok(p) => so_ok(cs@, pos as int, kw@) && p == so_end(cs@, pos as int, kw@) && pos < p
                <= cs@.len(),
            Err(e) => !so_ok(cs@, pos as int, kw@),
        },
{
    let p0 = skip_ws(cs, pos);
    if !tag_at(cs, p0, kw) {
        return Err(meta_err(p0, "Expected section keyword"));
    }
    let kn = kw.unicode_len();
    let csl = cs.len();
    proof {
        assert(p0 + kn <= csl);
    }
    let p1 = skip_ws(cs, p0 + kn);
    if !(p1 < cs.len() && cs[p1] == '{') {
        return Err(meta_err(p1, "Expected '{'"));
    }
    Ok(p1 + 1)
}

/// Reads a whole grammar description into its intermediate representation.
/// Success comes exactly when the input conforms to the meta-language
/// grammar; every field of the result is then pinned to its slice of the
/// input by `meta_parsed`, and the returned offset is where the
/// `NotTerminals` section ends (trailing text is left unread, as the
/// pipeline ignores it). A deviating input is rejected with the offset of
/// an offending character.
pub fn parse_parser_description(s: &str) -> (r: Result<
    (ParserDescription, usize),
    MetaParseError,
>)
    ensures
        match r {
            Ok((pd, p)) => {
                &&& meta_ok(s@)
                &&& meta_parsed(s@, pd)
                &&& p == meta_end(s@)
                &&& p <= s@.len()
            },
            Err(e) => !meta_ok(s@),
        },
{
    let cs = to_char_vec(s);
    // Prelude { ... }
    let p0 = match parse_section_open(s, &cs, 0, "Prelude") {
        Ok(p) => p,
        Err(e) => {
            return Err(e);
        },
    };
    let (prelude, p1) = match parse_braced(s, &cs, p0 - 1) {
        Ok(x) => x,
        Err(e) => {
            return Err(e);
        },
    };
    proof {
        assert(p1 == braced_end(s@, so_end(s@, 0, "Prelude"@) - 1));
    }
    // Skip { "re"; ...; }
    let p2 = match parse_section_open(s, &cs, p1, "Skip") {
        Ok(p) => p,
        Err(e) => {
            return Err(e);
        },
    };
    let ghost gsk = sk_list(s@, p2 as int);
    let mut skip: Vec<String> = Vec::new();
    let ghost mut skdone: Seq<int> = Seq::empty();
    let mut p = p2;
    let pw = skip_ws(&cs, p);
    match parse_regex(s, &cs, pw) {
        Ok((re0, pr)) => {
            skip.push(re0);
            p = skip_ws(&cs, pr);
            proof {
                lemma_sk_bounds(s@, p2 as int);
                skdone = seq![p2 as int];
                assert(p == sk_end(s@, p2 as int));
                assert(gsk.0 =~= skdone + sk_more(s@, p as int).0);
                assert(gsk.1 == sk_more(s@, p as int).1);
            }
            let mut go = true;
            while go
                invariant
                    cs@ == s@,
                    p2 <= p <= cs@.len(),
                    gsk == sk_list(s@, p2 as int),
                    gsk.0 == skdone + sk_more(s@, p as int).0,
                    gsk.1 == sk_more(s@, p as int).1,
                    skip@.len() == skdone.len(),
                    forall|i: int|
                        0 <= i < skdone.len() ==> sk_matches(s@, #[trigger] skdone[i], skip@[i]@),
                    !go ==> sk_more(s@, p as int).0 =~= Seq::<int>::empty() && sk_more(
                        s@,
                        p as int,
                    ).1 == p,
                decreases cs@.len() - p + (if go {
                    1int
                } else {
                    0int
                }),
            {
                if p < cs.len() && cs[p] == ';' {
                    let pn = skip_ws(&cs, p + 1);
                    match parse_regex(s, &cs, pn) {
                        Ok((re, pr2)) => {
                            skip.push(re);
                            let pnext = skip_ws(&cs, pr2);
                            proof {
                                lemma_sk_bounds(s@, p + 1);
                                assert(pnext == sk_end(s@, p + 1));
                                assert(sk_more2(s@, p as int, pnext as int) == sk_more(
                                    s@,
                                    pnext as int,
                                ));
                                assert(sk_more(s@, p as int).0 =~= seq![p + 1] + sk_more(
                                    s@,
                                    pnext as int,
                                ).0);
                                assert(sk_more(s@, p as int).1 == sk_more(s@, pnext as int).1);
                                let d0 = skdone;
                                skdone = d0 + seq![p + 1];
                                assert(gsk.0 =~= skdone + sk_more(s@, pnext as int).0);
                            }
                            p = pnext;
                        },
                        Err(_) => {
                            proof {
                                assert(sk_more(s@, p as int).0 =~= Seq::<int>::empty());
                            }
                            go = false;
                        },
                    }
                } else {
                    proof {
                        assert(sk_more(s@, p as int).0 =~= Seq::<int>::empty());
                    }
                    go = false;
                }
            }
        },
        Err(_) => {
            proof {
                assert(gsk.0 =~= skdone + Seq::<int>::empty());
                assert(gsk.1 == p2);
            }
        },
    }
    proof {
        assert(gsk.0 =~= skdone);
        assert(gsk.1 == p);
    }
    let p3 = match parse_close_tag(s, &cs, p) {
        Ok(x) => x,
        Err(e) => {
            return Err(e);
        },
    };
    // Tokens { Name -> "re"; ... }
    let p4 = match parse_section_open(s, &cs, p3, "Tokens") {
        Ok(x) => x,
        Err(e) => {
            return Err(e);
        },
    };
    let ghost gtd = td_list(s@, p4 as int);
    let mut tokens: Vec<Token> = Vec::new();
    let ghost mut tddone: Seq<int> = Seq::empty();
    let mut q = p4;
    match parse_token_decl(s, &cs, q) {
        Ok((t0, q1)) => {
            tokens.push(t0);
            proof {
                lemma_td_bounds(s@, q as int);
                tddone = seq![q as int];
                assert(gtd.0 =~= tddone + td_more(s@, q1 as int).0);
                assert(gtd.1 == td_more(s@, q1 as int).1);
            }
            q = q1;
            let mut go = true;
            while go
                invariant
                    cs@ == s@,
                    p4 <= q <= cs@.len(),
                    gtd == td_list(s@, p4 as int),
                    gtd.0 == tddone + td_more(s@, q as int).0,
                    gtd.1 == td_more(s@, q as int).1,
                    tokens@.len() == tddone.len(),
                    forall|i: int|
                        0 <= i < tddone.len() ==> td_matches(s@, #[trigger] tddone[i], tokens@[i]),
                    !go ==> td_more(s@, q as int).0 =~= Seq::<int>::empty() && td_more(
                        s@,
                        q as int,
                    ).1 == q,
                decreases cs@.len() - q + (if go {
                    1int
                } else {
                    0int
                }),
            {
                if q < cs.len() && cs[q] == ';' {
                    match parse_token_decl(s, &cs, q + 1) {
                        Ok((t, q2)) => {
                            tokens.push(t);
                            proof {
                                lemma_td_bounds(s@, q + 1);
                                assert(td_more2(s@, q as int, q2 as int) == td_more(
                                    s@,
                                    q2 as int,
                                ));
                                assert(td_more(s@, q as int).0 =~= seq![q + 1] + td_more(
                                    s@,
                                    q2 as int,
                                ).0);
                                assert(td_more(s@, q as int).1 == td_more(s@, q2 as int).1);
                                let d0 = tddone;
                                tddone = d0 + seq![q + 1];
                                assert(gtd.0 =~= tddone + td_more(s@, q2 as int).0);
                            }
                            q = q2;
                        },
                        Err(_) => {
                            proof {
                                assert(td_more(s@, q as int).0 =~= Seq::<int>::empty());
                            }
                            go = false;
                        },
                    }
                } else {
                    proof {
                        assert(td_more(s@, q as int).0 =~= Seq::<int>::empty());
                    }
                    go = false;
                }
            }
        },
        Err(_) => {
            proof {
                assert(gtd.0 =~= tddone + Seq::<int>::empty());
                assert(gtd.1 == p4);
            }
        },
    }
    proof {
        assert(gtd.0 =~= tddone);
        assert(gtd.1 == q);
    }
    let p5 = match parse_close_tag(s, &cs, q) {
        Ok(x) => x,
        Err(e) => {
            return Err(e);
        },
    };
    // NotTerminals { Decl; ... }
    let p6 = match parse_section_open(s, &cs, p5, "NotTerminals") {
        Ok(x) => x,
        Err(e) => {
            return Err(e);
        },
    };
    let ghost gnt = nts_list(s@, p6 as int);
    let mut not_terminal: Vec<NotTerminal> = Vec::new();
    let ghost mut ntdone: Seq<int> = Seq::empty();
    let mut w = p6;
    match parse_not_terminal(s, &cs, w) {
        Ok((nt0, w1)) => {
            not_terminal.push(nt0);
            proof {
                lemma_nt_bounds(s@, w as int);
                ntdone = seq![w as int];
                assert(gnt.0 =~= ntdone + nts_more(s@, w1 as int).0);
                assert(gnt.1 == nts_more(s@, w1 as int).1);
            }
            w = w1;
            let mut go = true;
            while go
                invariant
                    cs@ == s@,
                    p6 <= w <= cs@.len(),
                    gnt == nts_list(s@, p6 as int),
                    gnt.0 == ntdone + nts_more(s@, w as int).0,
                    gnt.1 == nts_more(s@, w as int).1,
                    not_terminal@.len() == ntdone.len(),
                    forall|i: int|
                        0 <= i < ntdone.len() ==> nt_matches(
                            s@,
                            #[trigger] ntdone[i],
                            not_terminal@[i],
                        ),
                    !go ==> nts_more(s@, w as int).0 =~= Seq::<int>::empty() && nts_more(
                        s@,
                        w as int,
                    ).1 == w,
                decreases cs@.len() - w + (if go {
                    1int
                } else {
                    0int
                }),
            {
                if w < cs.len() && cs[w] == ';' {
                    match parse_not_terminal(s, &cs, w + 1) {
                        Ok((nt, w2)) => {
                            not_terminal.push(nt);
                            proof {
                                lemma_nt_bounds(s@, w + 1);
                                assert(nts_more2(s@, w as int, w2 as int) == nts_more(
                                    s@,
                                    w2 as int,
                                ));
                                assert(nts_more(s@, w as int).0 =~= seq![w + 1] + nts_more(
                                    s@,
                                    w2 as int,
                                ).0);
                                assert(nts_more(s@, w as int).1 == nts_more(s@, w2 as int).1);
                                let d0 = ntdone;
                                ntdone = d0 + seq![w + 1];
                                assert(gnt.0 =~= ntdone + nts_more(s@, w2 as int).0);
                            }
                            w = w2;
                        },
                        Err(_) => {
                            proof {
                                assert(nts_more(s@, w as int).0 =~= Seq::<int>::empty());
                            }
                            go = false;
                        },
                    }
                } else {
                    proof {
                        assert(nts_more(s@, w as int).0 =~= Seq::<int>::empty());
                    }
                    go = false;
                }
            }
        },
        Err(_) => {
            proof {
                assert(gnt.0 =~= ntdone + Seq::<int>::empty());
                assert(gnt.1 == p6);
            }
        },
    }
    proof {
        assert(gnt.0 =~= ntdone);
        assert(gnt.1 == w);
    }
    let p7 = match parse_close_tag(s, &cs, w) {
        Ok(x) => x,
        Err(e) => {
            return Err(e);
        },
    };
    let pd = ParserDescription { prelude, skip, tokens, not_terminal };
    proof {
        assert(meta_ok(s@));
        assert(meta_parsed(s@, pd));
        assert(p7 == meta_end(s@));
    }
    Ok((pd, p7))
}

/// One terminal declaration: `Name -> "regex"`.
fn parse_token_decl(s: &str, cs: &Vec<char>, pos: usize) -> (r: Result<
    (Token, usize),
    MetaParseError,
>)
    requires
        cs@ == s@,
        pos <= cs@.len(),
    ensures
        match r {
            Ok((t, p)) => {
                &&& td_ok(cs@, pos as int)
                &&& p == td_end(cs@, pos as int)
                &&& pos <= p <= cs@.len()
                &&& td_matches(cs@, pos as int, t)
                &&& t.name@.len() > 0
            },
            Err(e) => !td_ok(cs@, pos as int),
        },
{
    let p0 = skip_ws(cs, pos);
    let (name, p1) = match parse_ident(s, cs, p0) {
        Ok(x) => x,
        Err(e) => {
            return Err(e);
        },
    };
    let p2 = skip_ws(cs, p1);
    if !tag_at(cs, p2, "->") {
        return Err(meta_err(p2, "Expected '->'"));
    }
    proof {
        reveal_strlit("->");
    }
    let csl = cs.len();
    proof {
        assert(p2 + 2 <= csl);
    }
    let p3 = skip_ws(cs, p2 + 2);
    let (regex, p4) = match parse_regex(s, cs, p3) {
        Ok(x) => x,
        Err(e) => {
            return Err(e);
        },
    };
    let p5 = skip_ws(cs, p4);
    Ok((Token { name, regex }, p5))
}

} // verus!
