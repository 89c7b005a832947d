//! An integer-calculator parser in the exact shape the generator emits:
//! an ordered-pattern tokenizer over the regex crate, one procedure per
//! terminal and per nonterminal, and a parse-tree built with preorder
//! counter ids. Values are 64-bit; an operation the original host language
//! would refuse (a bad factorial, an overflowing literal, division by zero)
//! is reported as a parse error instead of a crash.
use vstd::prelude::*;
use vstd::string::StrSliceExecFns;
use vstd::string::StringExecFns;
use vstd::string::StringSliceAdditionalSpecFns;
use vstd::utf8::encode_utf8;

use crate::graphviz::GraphVizNode;
use crate::graphviz::NodeV;
use crate::graphviz::ids_consecutive;
use crate::graphviz::lemma_list_ids_1;
use crate::graphviz::lemma_list_ids_2;
use crate::graphviz::lemma_list_ids_3;
use crate::graphviz::ids_consecutive_list;
use crate::graphviz::tree_size;
use crate::graphviz::tree_size_list;
use crate::lexer::LexToken;
use crate::lexer::first_token;
use crate::lexer::lemma_lexer_kinds_in_range;
use crate::lexer::lex_spec;
use crate::lexer::lexemes_match;
use crate::lexer::run_lexer;
use crate::lexer::strs_view;
use crate::lexer::token_step;
use crate::text::dec_digits;
use crate::text::to_decimal;

verus! {

// ---------------------------------------------------------------------------
// Semantic-action helpers spliced by the calculator grammar.
// ---------------------------------------------------------------------------
/// The factorial as the host machine computes it: `None` for a negative
/// argument or once a partial product leaves the 64-bit range.
pub open spec fn spec_fact(n: int) -> Option<i64>
    decreases n,
{
    if n < 0 {
        None
    } else if n == 0 {
        Some(1i64)
    } else {
        match spec_fact(n - 1) {
            Some(p) => if i64::MIN <= p * n <= i64::MAX {
                Some((p * n) as i64)
            } else {
                None
            },
            None => None,
        }
    }
}

proof fn lemma_fact_pos(n: int)
    requires
        spec_fact(n) is Some,
    ensures
        spec_fact(n)->Some_0 >= 1,
    decreases n,
{
    if n > 0 {
        lemma_fact_pos(n - 1);
        let p = spec_fact(n - 1)->Some_0;
        assert(p * n >= 1) by (nonlinear_arith)
            requires
                p >= 1,
                n >= 1,
        ;
    }
}

proof fn lemma_fact_none_up(m: int, n: int)
    requires
        spec_fact(m) is None,
        0 <= m <= n,
    ensures
        spec_fact(n) is None,
    decreases n - m,
{
    if m < n {
        lemma_fact_none_up(m, n - 1);
    }
}

fn fact(n: i64) -> (r: Option<i64>)
    ensures
        r == spec_fact(n as int),
{
    if n < 0 {
        return None;
    }
    let mut s: i64 = 1;
    let mut i: i64 = 0;
    while i < n
        invariant
            0 <= i <= n,
            Some(s) == spec_fact(i as int),
        decreases n - i,
    {
        i = i + 1;
        s = match s.checked_mul(i) {
            Some(v) => v,
            None => {
                proof {
                    lemma_fact_none_up(i as int, n as int);
                }
                return None;
            },
        };
    }
    Some(s)
}

/// The binomial coefficient as the original semantic action computes it:
/// `fact(n) / (fact(k) * fact(n - k))`, with `None` wherever that
/// computation would fail on 64-bit integers.
pub open spec fn spec_comb(n: int, k: int) -> Option<i64> {
    match spec_fact(n) {
        None => None,
        Some(nf) => match spec_fact(k) {
            None => None,
            Some(kf) => {
                if n - k < i64::MIN || n - k > i64::MAX {
                    None
                } else {
                    match spec_fact(n - k) {
                        None => None,
                        Some(nkf) => {
                            if i64::MIN <= kf * nkf <= i64::MAX {
                                Some(((nf as int) / (kf * nkf)) as i64)
                            } else {
                                None
                            }
                        },
                    }
                }
            },
        },
    }
}

fn comb(n: i64, k: i64) -> (r: Option<i64>)
    ensures
        r == spec_comb(n as int, k as int),
{
    let nf = match fact(n) {
        Some(v) => v,
        None => {
            return None;
        },
    };
    let kf = match fact(k) {
        Some(v) => v,
        None => {
            return None;
        },
    };
    let nk = match n.checked_sub(k) {
        Some(v) => v,
        None => {
            return None;
        },
    };
    let nkf = match fact(nk) {
        Some(v) => v,
        None => {
            return None;
        },
    };
    let d = match kf.checked_mul(nkf) {
        Some(v) => v,
        None => {
            return None;
        },
    };
    proof {
        lemma_fact_pos(n as int);
        lemma_fact_pos(k as int);
        lemma_fact_pos(nk as int);
        assert(d >= 1) by (nonlinear_arith)
            requires
                kf >= 1,
                nkf >= 1,
                d == kf as int * nkf as int,
        ;
        assert((nf as int) / (d as int) <= nf as int && (nf as int) / (d as int) >= 0)
            by (nonlinear_arith)
            requires
                nf >= 1,
                d >= 1,
        ;
    }
    let q = (nf as u64) / (d as u64);
    Some(q as i64)
}

// ---------------------------------------------------------------------------
// Reading a decimal literal.
// ---------------------------------------------------------------------------
/// The digits of `b` read as a number, most significant first.
pub open spec fn digits_val(b: Seq<u8>) -> int
    decreases b.len(),
{
    if b.len() == 0 {
        0
    } else {
        digits_val(b.drop_last()) * 10 + (b.last() - 48)
    }
}

pub open spec fn all_digits(b: Seq<u8>) -> bool {
    forall|i: int| 0 <= i < b.len() ==> 48 <= #[trigger] b[i] <= 57
}

/// The 64-bit value of a decimal literal with an optional leading minus
/// sign: `None` when the text is not of that shape, has more than 19
/// digits, or leaves the 64-bit range.
pub open spec fn spec_parse_i64(b: Seq<u8>) -> Option<i64> {
    let neg = b.len() > 0 && b[0] == 45;
    let d = if neg {
        b.subrange(1, b.len() as int)
    } else {
        b
    };
    if d.len() == 0 || d.len() > 19 || !all_digits(d) {
        None
    } else {
        let v = digits_val(d);
        if neg {
            if -v >= i64::MIN {
                Some((-v) as i64)
            } else {
                None
            }
        } else {
            if v <= i64::MAX {
                Some(v as i64)
            } else {
                None
            }
        }
    }
}

spec fn pow10(n: nat) -> int
    decreases n,
{
    if n == 0 {
        1
    } else {
        10 * pow10((n - 1) as nat)
    }
}

proof fn lemma_digits_val_small(b: Seq<u8>)
    requires
        all_digits(b),
    ensures
        0 <= digits_val(b) < pow10(b.len()),
    decreases b.len(),
{
    if b.len() > 0 {
        assert(all_digits(b.drop_last()));
        lemma_digits_val_small(b.drop_last());
        assert(48 <= b.last() <= 57);
    }
}

proof fn lemma_pow10_19()
    ensures
        pow10(19) == 10000000000000000000,
{
    reveal_with_fuel(pow10, 20);
}

fn parse_dec_i64(s: &str) -> (r: Option<i64>)
    ensures
        r == spec_parse_i64(s.spec_bytes()),
{
    let b = s.as_bytes();
    let ghost bs = s.spec_bytes();
    let len = b.len();
    let neg = len > 0 && b[0] == 45;
    let start: usize = if neg {
        1
    } else {
        0
    };
    let ghost d = if neg {
        bs.subrange(1, bs.len() as int)
    } else {
        bs
    };
    let ndigits = len - start;
    if ndigits == 0 || ndigits > 19 {
        return None;
    }
    let mut v: u64 = 0;
    let mut i: usize = start;
    while i < len
        invariant
            start <= i <= len,
            len == bs.len(),
            len - start <= 19,
            b@ == bs,
            bs == s.spec_bytes(),
            neg == (bs.len() > 0 && bs[0] == 45),
            d == (if neg {
                bs.subrange(1, bs.len() as int)
            } else {
                bs
            }),
            start == (if neg {
                1int
            } else {
                0int
            }),
            all_digits(d.subrange(0, i - start)),
            v == digits_val(d.subrange(0, i - start)),
            v < 0x8ac7230489e80000,
        decreases len - i,
    {
        let c = b[i];
        if c < 48 || c > 57 {
            proof {
                assert(d[i - start] == c);
                assert(!all_digits(d));
            }
            return None;
        }
        proof {
            let pre = d.subrange(0, i - start);
            let now = d.subrange(0, i + 1 - start);
            assert(now.drop_last() =~= pre);
            assert(now.last() == c);
            lemma_digits_val_small(pre);
            lemma_pow10_19();
            assert(pow10(pre.len()) <= pow10(18)) by {
                lemma_pow10_monotone(pre.len(), 18);
            }
            assert(pow10(18) * 10 == pow10(19));
        }
        v = v * 10 + ((c - 48) as u64);
        i = i + 1;
    }
    proof {
        assert(d.subrange(0, len - start) =~= d);
        lemma_digits_val_small(d);
        lemma_pow10_monotone(d.len(), 19);
        lemma_pow10_19();
    }
    if neg {
        if v <= 9223372036854775808u64 {
            proof {
                assert(-(v as int) >= i64::MIN);
            }
            if v == 9223372036854775808u64 {
                Some(i64::MIN)
            } else {
                Some(-(v as i64))
            }
        } else {
            None
        }
    } else {
        if v <= 9223372036854775807u64 {
            Some(v as i64)
        } else {
            None
        }
    }
}

proof fn lemma_pow10_monotone(a: nat, b: nat)
    requires
        a <= b,
    ensures
        pow10(a) <= pow10(b),
        pow10(a) >= 1,
    decreases b,
{
    if a < b {
        lemma_pow10_monotone(a, (b - 1) as nat);
        assert(pow10(b) == 10 * pow10((b - 1) as nat));
    } else if b > 0 {
        lemma_pow10_monotone((a - 1) as nat, (b - 1) as nat);
    }
}

// ---------------------------------------------------------------------------
// Tokens and the tokenizer.
// ---------------------------------------------------------------------------
/// One lexical token of the calculator grammar, carrying its lexeme.
#[derive(Debug)]
pub enum Token {
    Num(String),
    Mul(String),
    Plus(String),
    Minus(String),
    Div(String),
    Comb(String),
    Lb(String),
    Rb(String),
    Eof,
}

/// The mathematical view of a token: its class, and for a number the bytes
/// of its lexeme (the only payload the grammar's semantic actions read).
pub enum TokV {
    Num(Seq<u8>),
    Mul(Seq<u8>),
    Plus(Seq<u8>),
    Minus(Seq<u8>),
    Div(Seq<u8>),
    Comb(Seq<u8>),
    Lb(Seq<u8>),
    Rb(Seq<u8>),
    Eof,
}

pub open spec fn tok_view(t: Token) -> TokV {
    match t {
        Token::Num(s) => TokV::Num(encode_utf8(s@)),
        Token::Mul(s) => TokV::Mul(encode_utf8(s@)),
        Token::Plus(s) => TokV::Plus(encode_utf8(s@)),
        Token::Minus(s) => TokV::Minus(encode_utf8(s@)),
        Token::Div(s) => TokV::Div(encode_utf8(s@)),
        Token::Comb(s) => TokV::Comb(encode_utf8(s@)),
        Token::Lb(s) => TokV::Lb(encode_utf8(s@)),
        Token::Rb(s) => TokV::Rb(encode_utf8(s@)),
        Token::Eof => TokV::Eof,
    }
}

pub open spec fn tok_views(ts: Seq<Token>) -> Seq<TokV> {
    ts.map_values(|t: Token| tok_view(t))
}

/// The token class of the pattern with index `k`, holding lexeme `lex`.
pub open spec fn kind_tok(k: int, lex: Seq<u8>) -> TokV {
    if k == 0 {
        TokV::Num(lex)
    } else if k == 1 {
        TokV::Mul(lex)
    } else if k == 2 {
        TokV::Plus(lex)
    } else if k == 3 {
        TokV::Minus(lex)
    } else if k == 4 {
        TokV::Div(lex)
    } else if k == 5 {
        TokV::Comb(lex)
    } else if k == 6 {
        TokV::Lb(lex)
    } else {
        TokV::Rb(lex)
    }
}

/// The token stream of a scan result, with the end-of-input sentinel.
pub open spec fn toks_of_items(items: Seq<(int, int, int)>, hb: Seq<u8>) -> Seq<TokV> {
    items.map_values(|it: (int, int, int)| kind_tok(it.0, hb.subrange(it.1, it.2))) + seq![
        TokV::Eof,
    ]
}

/// A proper token stream: it ends with the one end-of-input sentinel.
pub open spec fn tokens_wf(ts: Seq<Token>) -> bool {
    &&& ts.len() >= 1
    &&& tok_view(ts.last()) is Eof
    &&& forall|i: int| 0 <= i < ts.len() - 1 ==> !(tok_view(#[trigger] ts[i]) is Eof)
}

/// The skip patterns of the calculator grammar, in declaration order.
pub open spec fn calc_skip_pats() -> Seq<Seq<char>> {
    seq!["\n"@, "\r"@, " "@]
}

/// The token patterns of the calculator grammar, in declaration order.
pub open spec fn calc_token_pats() -> Seq<Seq<char>> {
    seq![
        "(-?)[1-9]([0-9]*)"@,
        "\\*"@,
        "\\+"@,
        "\\-"@,
        "/"@,
        "\\$"@,
        "\\("@,
        "\\)"@,
    ]
}

fn calc_skips() -> (v: Vec<&'static str>)
    ensures
        strs_view(v@) == calc_skip_pats(),
{
    let v = vec!["\n", "\r", " "];
    proof {
        assert(strs_view(v@) =~= calc_skip_pats());
    }
    v
}

fn calc_pats() -> (v: Vec<&'static str>)
    ensures
        strs_view(v@) == calc_token_pats(),
{
    let v = vec!["(-?)[1-9]([0-9]*)", "\\*", "\\+", "\\-", "/", "\\$", "\\(", "\\)"];
    proof {
        assert(strs_view(v@) =~= calc_token_pats());
    }
    v
}

fn to_token(kind: usize, text: String) -> (t: Token)
    requires
        kind < 8,
    ensures
        tok_view(t) == kind_tok(kind as int, encode_utf8(text@)),
        !(tok_view(t) is Eof),
{
    if kind == 0 {
        Token::Num(text)
    } else if kind == 1 {
        Token::Mul(text)
    } else if kind == 2 {
        Token::Plus(text)
    } else if kind == 3 {
        Token::Minus(text)
    } else if kind == 4 {
        Token::Div(text)
    } else if kind == 5 {
        Token::Comb(text)
    } else if kind == 6 {
        Token::Lb(text)
    } else {
        Token::Rb(text)
    }
}

/// A lexical failure or a predictive mismatch, at a position of the input.
#[derive(Debug)]
pub struct ParseError {
    pub position: usize,
    pub message: String,
}

/// The scanner for calculator input.
pub struct Tokenizer {
    input: String,
    pointer: usize,
}

impl Tokenizer {
    fn new(input: String) -> (t: Tokenizer)
        ensures
            t.input == input,
            t.pointer == 0,
    {
        Tokenizer { input, pointer: 0 }
    }

    /// One anchored token match at the cursor, in pattern order.
    fn match_token(&mut self) -> (r: Option<Token>)
        requires
            old(self).pointer <= encode_utf8(old(self).input@).len(),
        ensures
            final(self).input == old(self).input,
            match r {
                Some(t) => {
                    &&& first_token(calc_token_pats(), old(self).input@, old(self).pointer as int, 0)
                        matches Some((k, e)) && tok_view(t) == kind_tok(
                        k,
                        encode_utf8(old(self).input@).subrange(old(self).pointer as int, e),
                    ) && final(self).pointer == e
                },
                None => first_token(calc_token_pats(), old(self).input@, old(self).pointer as int, 0)
                    is None && final(self).pointer == old(self).pointer,
            },
    {
        let pats = calc_pats();
        match token_step(&pats, self.input.as_str(), self.pointer) {
            Some((k, e, text)) => {
                proof {
                    crate::lexer::lemma_first_token_kind(
                        calc_token_pats(),
                        self.input@,
                        self.pointer as int,
                        0,
                    );
                }
                let t = to_token(k, text);
                self.pointer = e;
                Some(t)
            },
            None => None,
        }
    }

    /// Scans the whole input into tokens with the end-of-input sentinel
    /// appended, or reports the first byte offset where no pattern applies.
    pub fn tokenize(input: String) -> (r: Result<Vec<Token>, ParseError>)
        ensures
            match r {
                Ok(toks) => {
                    &&& lex_spec(calc_skip_pats(), calc_token_pats(), input@, 0) is Ok
                    &&& tok_views(toks@) == toks_of_items(
                        lex_spec(calc_skip_pats(), calc_token_pats(), input@, 0)->Ok_0,
                        encode_utf8(input@),
                    )
                    &&& tokens_wf(toks@)
                },
                Err(pe) => lex_spec(calc_skip_pats(), calc_token_pats(), input@, 0) == Err::<
                    Seq<(int, int, int)>,
                    int,
                >(pe.position as int) && pe.message@ == "Expected token"@,
            },
    {
        Tokenizer::new(input).run_tokenizing()
    }

    fn run_tokenizing(&mut self) -> (r: Result<Vec<Token>, ParseError>)
        ensures
            final(self).input == old(self).input,
            match r {
                Ok(toks) => {
                    &&& lex_spec(calc_skip_pats(), calc_token_pats(), old(self).input@, 0) is Ok
                    &&& tok_views(toks@) == toks_of_items(
                        lex_spec(calc_skip_pats(), calc_token_pats(), old(self).input@, 0)->Ok_0,
                        encode_utf8(old(self).input@),
                    )
                    &&& tokens_wf(toks@)
                },
                Err(pe) => lex_spec(calc_skip_pats(), calc_token_pats(), old(self).input@, 0)
                    == Err::<Seq<(int, int, int)>, int>(pe.position as int) && pe.message@
                    == "Expected token"@,
            },
    {
        let skips = calc_skips();
        let pats = calc_pats();
        let ghost hb = encode_utf8(self.input@);
        match run_lexer(self.input.as_str(), &skips, &pats) {
            Ok(lexed) => {
                let ghost items = lex_spec(calc_skip_pats(), calc_token_pats(), self.input@, 0)->Ok_0;
                proof {
                    lemma_lexer_kinds_in_range(calc_skip_pats(), calc_token_pats(), self.input@, 0);
                }
                let mut toks: Vec<Token> = Vec::new();
                let nl = lexed.len();
                let mut i: usize = 0;
                while i < nl
                    invariant
                        nl == lexed.len(),
                        i <= nl,
                        items == lex_spec(calc_skip_pats(), calc_token_pats(), self.input@, 0)->Ok_0,
                        lex_spec(calc_skip_pats(), calc_token_pats(), self.input@, 0) is Ok,
                        hb == encode_utf8(self.input@),
                        lexemes_match(lexed@, items, hb),
                        calc_token_pats().len() == 8,
                        forall|j: int|
                            0 <= j < items.len() ==> 0 <= (#[trigger] items[j]).0 < 8,
                        toks@.len() == i,
                        forall|j: int|
                            0 <= j < i ==> tok_view(#[trigger] toks@[j]) == kind_tok(
                                items[j].0,
                                hb.subrange(items[j].1, items[j].2),
                            ) && !(tok_view(toks@[j]) is Eof),
                    decreases nl - i,
                {
                    let text = lexed[i].text.clone();
                    let kind = lexed[i].kind;
                    proof {
                        assert(lexed@[i as int].kind == items[i as int].0);
                        assert(encode_utf8(lexed@[i as int].text@) == hb.subrange(
                            items[i as int].1,
                            items[i as int].2,
                        ));
                    }
                    let t = to_token(kind, text);
                    toks.push(t);
                    i = i + 1;
                }
                toks.push(Token::Eof);
                proof {
                    assert(tok_views(toks@) =~= toks_of_items(items, hb));
                    assert(tok_view(toks@[toks@.len() - 1]) is Eof);
                }
                self.pointer = self.input.as_str().as_bytes().len();
                Ok(toks)
            },
            Err(p) => {
                self.pointer = p;
                Err(ParseError { position: p, message: String::from_str("Expected token") })
            },
        }
    }
}

// ---------------------------------------------------------------------------
// The predictive parser.
// ---------------------------------------------------------------------------
/// Truncating 64-bit division, wrapping on the one overflowing case.
pub open spec fn abs64(x: i64) -> int {
    if x >= 0 {
        x as int
    } else {
        -(x as int)
    }
}

pub open spec fn wrap_div_i64(a: i64, b: i64) -> i64
    recommends
        b != 0,
{
    if a == i64::MIN && b == -1 {
        i64::MIN
    } else {
        let q = abs64(a) / abs64(b);
        if (a < 0) != (b < 0) {
            (-q) as i64
        } else {
            q as i64
        }
    }
}

fn div_i64(a: i64, b: i64) -> (r: i64)
    requires
        b != 0,
    ensures
        r == wrap_div_i64(a, b),
{
    if a == i64::MIN && b == -1 {
        return i64::MIN;
    }
    let ua: u64 = if a >= 0 {
        a as u64
    } else if a == i64::MIN {
        9223372036854775808u64
    } else {
        (-a) as u64
    };
    let ub: u64 = if b >= 0 {
        b as u64
    } else if b == i64::MIN {
        9223372036854775808u64
    } else {
        (-b) as u64
    };
    let uq = ua / ub;
    proof {
        assert(ua as int == abs64(a));
        assert(ub as int == abs64(b));
        vstd::arithmetic::div_mod::lemma_div_is_ordered_by_denominator(ua as int, 1, ub as int);
        vstd::arithmetic::div_mod::lemma_div_basics(ua as int);
        assert(uq <= ua);
        if ub >= 2 {
            vstd::arithmetic::div_mod::lemma_div_is_ordered_by_denominator(ua as int, 2, ub as int);
            assert(ua as int / 2 <= 4611686018427387904);
            assert(uq <= 4611686018427387904);
        }
    }
    let negres = (a < 0) != (b < 0);
    if negres {
        if uq == 9223372036854775808u64 {
            i64::MIN
        } else {
            -(uq as i64)
        }
    } else {
        uq as i64
    }
}

/// A leaf of the parse tree: the decimal of the counter it was given, its
/// terminal's name, no children.
pub open spec fn leaf_v(c: int, label: Seq<char>) -> NodeV {
    NodeV { id: dec_digits(c as nat), label, circle: false, children: Seq::empty() }
}

/// An interior node of the parse tree.
pub open spec fn node_v(c: int, label: Seq<char>, children: Seq<NodeV>) -> NodeV {
    NodeV { id: dec_digits(c as nat), label, circle: true, children }
}

/// What a parse procedure yields: the tree it built, its synthesized value,
/// and the cursor and counter after it — or the position and message of the
/// first failure.
pub open spec fn sp_s(ts: Seq<TokV>, p: int, c: int) -> Result<
    (NodeV, i64, int, int),
    (int, Seq<char>),
>
    decreases ts.len() - p, 8int,
{
    if !(0 <= p < ts.len()) {
        Err((p, "Can't match rule"@))
    } else {
        match ts[p] {
            TokV::Minus(_) | TokV::Num(_) | TokV::Lb(_) => match sp_c(ts, p, c + 1) {
                Ok((n1, v1, p1, c1)) => Ok((node_v(c, "S"@, seq![n1]), v1, p1, c1)),
                Err(e) => Err(e),
            },
            _ => Err((p, "Can't match rule"@)),
        }
    }
}

pub open spec fn sp_c(ts: Seq<TokV>, p: int, c: int) -> Result<
    (NodeV, i64, int, int),
    (int, Seq<char>),
>
    decreases ts.len() - p, 7int,
{
    if !(0 <= p < ts.len()) {
        Err((p, "Can't match rule"@))
    } else {
        match ts[p] {
            TokV::Num(_) | TokV::Minus(_) | TokV::Lb(_) => match sp_e(ts, p, c + 1) {
                Ok((n1, v1, p1, c1)) => if p < p1 <= ts.len() {
                    match sp_cx(ts, p1, c1, v1) {
                        Ok((n2, v2, p2, c2)) => Ok((node_v(c, "C"@, seq![n1, n2]), v2, p2, c2)),
                        Err(e) => Err(e),
                    }
                } else {
                    Err((-1, Seq::empty()))
                },
                Err(e) => Err(e),
            },
            _ => Err((p, "Can't match rule"@)),
        }
    }
}

pub open spec fn sp_cx(ts: Seq<TokV>, p: int, c: int, acc: i64) -> Result<
    (NodeV, i64, int, int),
    (int, Seq<char>),
>
    decreases ts.len() - p, 9int,
{
    if !(0 <= p < ts.len()) {
        Err((p, "Can't match rule"@))
    } else {
        match ts[p] {
            TokV::Comb(_) => match sp_e(ts, p + 1, c + 2) {
                Ok((n1, v1, p1, c1)) => if p + 1 < p1 <= ts.len() {
                    match spec_comb(acc as int, v1 as int) {
                        Some(cc) => match sp_cx(ts, p1, c1, cc) {
                            Ok((n2, v2, p2, c2)) => Ok(
                                (
                                    node_v(c, "Cx"@, seq![leaf_v(c + 1, "Comb"@), n1, n2]),
                                    v2,
                                    p2,
                                    c2,
                                ),
                            ),
                            Err(e) => Err(e),
                        },
                        None => Err((p1, "Invalid combination"@)),
                    }
                } else {
                    Err((-1, Seq::empty()))
                },
                Err(e) => Err(e),
            },
            TokV::Eof => Ok((node_v(c, "Cx"@, Seq::empty()), acc, p, c + 1)),
            _ => Err((p, "Can't match rule"@)),
        }
    }
}

pub open spec fn sp_e(ts: Seq<TokV>, p: int, c: int) -> Result<
    (NodeV, i64, int, int),
    (int, Seq<char>),
>
    decreases ts.len() - p, 6int,
{
    if !(0 <= p < ts.len()) {
        Err((p, "Can't match rule"@))
    } else {
        match ts[p] {
            TokV::Lb(_) | TokV::Minus(_) | TokV::Num(_) => match sp_t(ts, p, c + 1) {
                Ok((n1, v1, p1, c1)) => if p < p1 <= ts.len() {
                    match sp_ex(ts, p1, c1, v1) {
                        Ok((n2, v2, p2, c2)) => Ok((node_v(c, "E"@, seq![n1, n2]), v2, p2, c2)),
                        Err(e) => Err(e),
                    }
                } else {
                    Err((-1, Seq::empty()))
                },
                Err(e) => Err(e),
            },
            _ => Err((p, "Can't match rule"@)),
        }
    }
}

pub open spec fn sp_ex(ts: Seq<TokV>, p: int, c: int, acc: i64) -> Result<
    (NodeV, i64, int, int),
    (int, Seq<char>),
>
    decreases ts.len() - p, 9int,
{
    if !(0 <= p < ts.len()) {
        Err((p, "Can't match rule"@))
    } else {
        match ts[p] {
            TokV::Plus(_) => match sp_t(ts, p + 1, c + 2) {
                Ok((n1, v1, p1, c1)) => if p + 1 < p1 <= ts.len() {
                    match sp_ex(ts, p1, c1, vstd::wrapping::i64_specs::wrapping_add(acc, v1)) {
                        Ok((n2, v2, p2, c2)) => Ok(
                            (node_v(c, "Ex"@, seq![leaf_v(c + 1, "Plus"@), n1, n2]), v2, p2, c2),
                        ),
                        Err(e) => Err(e),
                    }
                } else {
                    Err((-1, Seq::empty()))
                },
                Err(e) => Err(e),
            },
            TokV::Minus(_) => match sp_t(ts, p + 1, c + 2) {
                Ok((n1, v1, p1, c1)) => if p + 1 < p1 <= ts.len() {
                    match sp_ex(ts, p1, c1, vstd::wrapping::i64_specs::wrapping_sub(acc, v1)) {
                        Ok((n2, v2, p2, c2)) => Ok(
                            (node_v(c, "Ex"@, seq![leaf_v(c + 1, "Minus"@), n1, n2]), v2, p2, c2),
                        ),
                        Err(e) => Err(e),
                    }
                } else {
                    Err((-1, Seq::empty()))
                },
                Err(e) => Err(e),
            },
            TokV::Rb(_) | TokV::Eof | TokV::Comb(_) => Ok((node_v(c, "Ex"@, Seq::empty()), acc, p, c + 1)),
            _ => Err((p, "Can't match rule"@)),
        }
    }
}

pub open spec fn sp_t(ts: Seq<TokV>, p: int, c: int) -> Result<
    (NodeV, i64, int, int),
    (int, Seq<char>),
>
    decreases ts.len() - p, 4int,
{
    if !(0 <= p < ts.len()) {
        Err((p, "Can't match rule"@))
    } else {
        match ts[p] {
            TokV::Minus(_) | TokV::Num(_) | TokV::Lb(_) => match sp_f(ts, p, c + 1) {
                Ok((n1, v1, p1, c1)) => if p < p1 <= ts.len() {
                    match sp_tx(ts, p1, c1, v1) {
                        Ok((n2, v2, p2, c2)) => Ok((node_v(c, "T"@, seq![n1, n2]), v2, p2, c2)),
                        Err(e) => Err(e),
                    }
                } else {
                    Err((-1, Seq::empty()))
                },
                Err(e) => Err(e),
            },
            _ => Err((p, "Can't match rule"@)),
        }
    }
}

pub open spec fn sp_tx(ts: Seq<TokV>, p: int, c: int, acc: i64) -> Result<
    (NodeV, i64, int, int),
    (int, Seq<char>),
>
    decreases ts.len() - p, 9int,
{
    if !(0 <= p < ts.len()) {
        Err((p, "Can't match rule"@))
    } else {
        match ts[p] {
            TokV::Mul(_) => match sp_f(ts, p + 1, c + 2) {
                Ok((n1, v1, p1, c1)) => if p + 1 < p1 <= ts.len() {
                    match sp_tx(ts, p1, c1, vstd::wrapping::i64_specs::wrapping_mul(acc, v1)) {
                        Ok((n2, v2, p2, c2)) => Ok(
                            (node_v(c, "Tx"@, seq![leaf_v(c + 1, "Mul"@), n1, n2]), v2, p2, c2),
                        ),
                        Err(e) => Err(e),
                    }
                } else {
                    Err((-1, Seq::empty()))
                },
                Err(e) => Err(e),
            },
            TokV::Div(_) => match sp_f(ts, p + 1, c + 2) {
                Ok((n1, v1, p1, c1)) => if p + 1 < p1 <= ts.len() {
                    if v1 == 0 {
                        Err((p1, "Division by zero"@))
                    } else {
                        match sp_tx(ts, p1, c1, wrap_div_i64(acc, v1)) {
                            Ok((n2, v2, p2, c2)) => Ok(
                                (node_v(c, "Tx"@, seq![leaf_v(c + 1, "Div"@), n1, n2]), v2, p2, c2),
                            ),
                            Err(e) => Err(e),
                        }
                    }
                } else {
                    Err((-1, Seq::empty()))
                },
                Err(e) => Err(e),
            },
            TokV::Plus(_) | TokV::Comb(_) | TokV::Eof | TokV::Rb(_) | TokV::Minus(_) => Ok(
                (node_v(c, "Tx"@, Seq::empty()), acc, p, c + 1),
            ),
            _ => Err((p, "Can't match rule"@)),
        }
    }
}

pub open spec fn sp_f(ts: Seq<TokV>, p: int, c: int) -> Result<
    (NodeV, i64, int, int),
    (int, Seq<char>),
>
    decreases ts.len() - p, 2int,
{
    if !(0 <= p < ts.len()) {
        Err((p, "Can't match rule"@))
    } else {
        match ts[p] {
            TokV::Minus(_) => match sp_f(ts, p + 1, c + 2) {
                Ok((n1, v1, p1, c1)) => Ok(
                    (
                        node_v(c, "F"@, seq![leaf_v(c + 1, "Minus"@), n1]),
                        vstd::wrapping::i64_specs::wrapping_sub(0i64, v1),
                        p1,
                        c1,
                    ),
                ),
                Err(e) => Err(e),
            },
            TokV::Lb(_) | TokV::Num(_) => match sp_p(ts, p, c + 1) {
                Ok((n1, v1, p1, c1)) => Ok((node_v(c, "F"@, seq![n1]), v1, p1, c1)),
                Err(e) => Err(e),
            },
            _ => Err((p, "Can't match rule"@)),
        }
    }
}

pub open spec fn sp_p(ts: Seq<TokV>, p: int, c: int) -> Result<
    (NodeV, i64, int, int),
    (int, Seq<char>),
>
    decreases ts.len() - p, 1int,
{
    if !(0 <= p < ts.len()) {
        Err((p, "Can't match rule"@))
    } else {
        match ts[p] {
            TokV::Lb(_) => match sp_e(ts, p + 1, c + 2) {
                Ok((n1, v1, p1, c1)) => if p + 1 < p1 < ts.len() {
                    if ts[p1] is Rb {
                        Ok(
                            (
                                node_v(
                                    c,
                                    "P"@,
                                    seq![leaf_v(c + 1, "Lb"@), n1, leaf_v(c1, "Rb"@)],
                                ),
                                v1,
                                p1 + 1,
                                c1 + 1,
                            ),
                        )
                    } else {
                        Err((p1, "Expected Rb"@))
                    }
                } else {
                    Err((-1, Seq::empty()))
                },
                Err(e) => Err(e),
            },
            TokV::Num(lex) => match spec_parse_i64(lex) {
                Some(v) => Ok((node_v(c, "P"@, seq![leaf_v(c + 1, "Num"@)]), v, p + 1, c + 2)),
                None => Err((p + 1, "Invalid number"@)),
            },
            _ => Err((p, "Can't match rule"@)),
        }
    }
}

/// The parser state the emitted procedures thread: the token vector, the
/// cursor, and the node counter.
struct Parser {
    tokens: Vec<Token>,
    pointer: usize,
    counter: u128,
}

/// The cursor stands on a token, and the stream is properly terminated.
pub open spec fn parser_wf(tokens: Seq<Token>, pointer: int) -> bool {
    tokens_wf(tokens) && 0 <= pointer < tokens.len()
}

/// Room in the counter for every node the rest of the parse can allocate.
pub open spec fn counter_room(tokens: Seq<Token>, pointer: int, counter: int, k: int) -> bool {
    counter + 14 * (tokens.len() - pointer) + k <= u128::MAX
}

impl Parser {
    fn new(tokens: Vec<Token>) -> (p: Parser)
        ensures
            p.tokens == tokens,
            p.pointer == 0,
            p.counter == 0,
    {
        Parser { tokens, pointer: 0, counter: 0 }
    }

    #[allow(non_snake_case)]
    fn Plus(&mut self) -> (r: Result<(GraphVizNode, String), ParseError>)
        requires
            parser_wf(old(self).tokens@, old(self).pointer as int),
            old(self).counter < u128::MAX,
        ensures
            final(self).tokens == old(self).tokens,
            match r {
                Ok((node, s)) => {
                    &&& final(self).pointer == old(self).pointer + 1
                    &&& final(self).counter == old(self).counter + 1
                    &&& tok_view(old(self).tokens@[old(self).pointer as int]) is Plus
                    &&& node@ == leaf_v(old(self).counter as int, "Plus"@)
                    &&& parser_wf(final(self).tokens@, final(self).pointer as int)
                },
                Err(pe) => {
                    &&& !(tok_view(old(self).tokens@[old(self).pointer as int]) is Plus)
                    &&& *final(self) == *old(self)
                    &&& pe.position == old(self).pointer
                    &&& pe.message@ == "Expected Plus"@
                },
            },
    {
        let pos = self.pointer;
        let n = self.tokens.len();
        proof {
            assert(pos < n);
        }
        let matched: Option<String> = match &self.tokens[pos] {
            Token::Plus(s) => Some(s.clone()),
            _ => None,
        };
        match matched {
            Some(sc) => {
                let id = to_decimal(self.counter);
                self.pointer = pos + 1;
                self.counter = self.counter + 1;
                let node = GraphVizNode::new_leaf(id, String::from_str("Plus"));
                proof {
                    assert(node@ =~= leaf_v(old(self).counter as int, "Plus"@));
                }
                Ok((node, sc))
            },
            None => Err(ParseError { position: pos, message: String::from_str("Expected Plus") }),
        }
    }

    #[allow(non_snake_case)]
    fn Comb(&mut self) -> (r: Result<(GraphVizNode, String), ParseError>)
        requires
            parser_wf(old(self).tokens@, old(self).pointer as int),
            old(self).counter < u128::MAX,
        ensures
            final(self).tokens == old(self).tokens,
            match r {
                Ok((node, s)) => {
                    &&& final(self).pointer == old(self).pointer + 1
                    &&& final(self).counter == old(self).counter + 1
                    &&& tok_view(old(self).tokens@[old(self).pointer as int]) is Comb
                    &&& node@ == leaf_v(old(self).counter as int, "Comb"@)
                    &&& parser_wf(final(self).tokens@, final(self).pointer as int)
                },
                Err(pe) => {
                    &&& !(tok_view(old(self).tokens@[old(self).pointer as int]) is Comb)
                    &&& *final(self) == *old(self)
                    &&& pe.position == old(self).pointer
                    &&& pe.message@ == "Expected Comb"@
                },
            },
    {
        let pos = self.pointer;
        let n = self.tokens.len();
        proof {
            assert(pos < n);
        }
        let matched: Option<String> = match &self.tokens[pos] {
            Token::Comb(s) => Some(s.clone()),
            _ => None,
        };
        match matched {
            Some(sc) => {
                let id = to_decimal(self.counter);
                self.pointer = pos + 1;
                self.counter = self.counter + 1;
                let node = GraphVizNode::new_leaf(id, String::from_str("Comb"));
                proof {
                    assert(node@ =~= leaf_v(old(self).counter as int, "Comb"@));
                }
                Ok((node, sc))
            },
            None => Err(ParseError { position: pos, message: String::from_str("Expected Comb") }),
        }
    }

    #[allow(non_snake_case)]
    fn Num(&mut self) -> (r: Result<(GraphVizNode, String), ParseError>)
        requires
            parser_wf(old(self).tokens@, old(self).pointer as int),
            old(self).counter < u128::MAX,
        ensures
            final(self).tokens == old(self).tokens,
            match r {
                Ok((node, s)) => {
                    &&& final(self).pointer == old(self).pointer + 1
                    &&& final(self).counter == old(self).counter + 1
                    &&& tok_view(old(self).tokens@[old(self).pointer as int]) is Num
                    &&& tok_view(old(self).tokens@[old(self).pointer as int]) == TokV::Num(
                        encode_utf8(s@),
                    )
                    &&& node@ == leaf_v(old(self).counter as int, "Num"@)
                    &&& parser_wf(final(self).tokens@, final(self).pointer as int)
                },
                Err(pe) => {
                    &&& !(tok_view(old(self).tokens@[old(self).pointer as int]) is Num)
                    &&& *final(self) == *old(self)
                    &&& pe.position == old(self).pointer
                    &&& pe.message@ == "Expected Num"@
                },
            },
    {
        let pos = self.pointer;
        let n = self.tokens.len();
        proof {
            assert(pos < n);
        }
        let matched: Option<String> = match &self.tokens[pos] {
            Token::Num(s) => Some(s.clone()),
            _ => None,
        };
        match matched {
            Some(sc) => {
                let id = to_decimal(self.counter);
                self.pointer = pos + 1;
                self.counter = self.counter + 1;
                let node = GraphVizNode::new_leaf(id, String::from_str("Num"));
                proof {
                    assert(node@ =~= leaf_v(old(self).counter as int, "Num"@));
                }
                Ok((node, sc))
            },
            None => Err(ParseError { position: pos, message: String::from_str("Expected Num") }),
        }
    }

    #[allow(non_snake_case)]
    fn Minus(&mut self) -> (r: Result<(GraphVizNode, String), ParseError>)
        requires
            parser_wf(old(self).tokens@, old(self).pointer as int),
            old(self).counter < u128::MAX,
        ensures
            final(self).tokens == old(self).tokens,
            match r {
                Ok((node, s)) => {
                    &&& final(self).pointer == old(self).pointer + 1
                    &&& final(self).counter == old(self).counter + 1
                    &&& tok_view(old(self).tokens@[old(self).pointer as int]) is Minus
                    &&& node@ == leaf_v(old(self).counter as int, "Minus"@)
                    &&& parser_wf(final(self).tokens@, final(self).pointer as int)
                },
                Err(pe) => {
                    &&& !(tok_view(old(self).tokens@[old(self).pointer as int]) is Minus)
                    &&& *final(self) == *old(self)
                    &&& pe.position == old(self).pointer
                    &&& pe.message@ == "Expected Minus"@
                },
            },
    {
        let pos = self.pointer;
        let n = self.tokens.len();
        proof {
            assert(pos < n);
        }
        let matched: Option<String> = match &self.tokens[pos] {
            Token::Minus(s) => Some(s.clone()),
            _ => None,
        };
        match matched {
            Some(sc) => {
                let id = to_decimal(self.counter);
                self.pointer = pos + 1;
                self.counter = self.counter + 1;
                let node = GraphVizNode::new_leaf(id, String::from_str("Minus"));
                proof {
                    assert(node@ =~= leaf_v(old(self).counter as int, "Minus"@));
                }
                Ok((node, sc))
            },
            None => Err(ParseError { position: pos, message: String::from_str("Expected Minus") }),
        }
    }

    #[allow(non_snake_case)]
    fn Lb(&mut self) -> (r: Result<(GraphVizNode, String), ParseError>)
        requires
            parser_wf(old(self).tokens@, old(self).pointer as int),
            old(self).counter < u128::MAX,
        ensures
            final(self).tokens == old(self).tokens,
            match r {
                Ok((node, s)) => {
                    &&& final(self).pointer == old(self).pointer + 1
                    &&& final(self).counter == old(self).counter + 1
                    &&& tok_view(old(self).tokens@[old(self).pointer as int]) is Lb
                    &&& node@ == leaf_v(old(self).counter as int, "Lb"@)
                    &&& parser_wf(final(self).tokens@, final(self).pointer as int)
                },
                Err(pe) => {
                    &&& !(tok_view(old(self).tokens@[old(self).pointer as int]) is Lb)
                    &&& *final(self) == *old(self)
                    &&& pe.position == old(self).pointer
                    &&& pe.message@ == "Expected Lb"@
                },
            },
    {
        let pos = self.pointer;
        let n = self.tokens.len();
        proof {
            assert(pos < n);
        }
        let matched: Option<String> = match &self.tokens[pos] {
            Token::Lb(s) => Some(s.clone()),
            _ => None,
        };
        match matched {
            Some(sc) => {
                let id = to_decimal(self.counter);
                self.pointer = pos + 1;
                self.counter = self.counter + 1;
                let node = GraphVizNode::new_leaf(id, String::from_str("Lb"));
                proof {
                    assert(node@ =~= leaf_v(old(self).counter as int, "Lb"@));
                }
                Ok((node, sc))
            },
            None => Err(ParseError { position: pos, message: String::from_str("Expected Lb") }),
        }
    }

    #[allow(non_snake_case)]
    fn Div(&mut self) -> (r: Result<(GraphVizNode, String), ParseError>)
        requires
            parser_wf(old(self).tokens@, old(self).pointer as int),
            old(self).counter < u128::MAX,
        ensures
            final(self).tokens == old(self).tokens,
            match r {
                Ok((node, s)) => {
                    &&& final(self).pointer == old(self).pointer + 1
                    &&& final(self).counter == old(self).counter + 1
                    &&& tok_view(old(self).tokens@[old(self).pointer as int]) is Div
                    &&& node@ == leaf_v(old(self).counter as int, "Div"@)
                    &&& parser_wf(final(self).tokens@, final(self).pointer as int)
                },
                Err(pe) => {
                    &&& !(tok_view(old(self).tokens@[old(self).pointer as int]) is Div)
                    &&& *final(self) == *old(self)
                    &&& pe.position == old(self).pointer
                    &&& pe.message@ == "Expected Div"@
                },
            },
    {
        let pos = self.pointer;
        let n = self.tokens.len();
        proof {
            assert(pos < n);
        }
        let matched: Option<String> = match &self.tokens[pos] {
            Token::Div(s) => Some(s.clone()),
            _ => None,
        };
        match matched {
            Some(sc) => {
                let id = to_decimal(self.counter);
                self.pointer = pos + 1;
                self.counter = self.counter + 1;
                let node = GraphVizNode::new_leaf(id, String::from_str("Div"));
                proof {
                    assert(node@ =~= leaf_v(old(self).counter as int, "Div"@));
                }
                Ok((node, sc))
            },
            None => Err(ParseError { position: pos, message: String::from_str("Expected Div") }),
        }
    }

    #[allow(non_snake_case)]
    fn Rb(&mut self) -> (r: Result<(GraphVizNode, String), ParseError>)
        requires
            parser_wf(old(self).tokens@, old(self).pointer as int),
            old(self).counter < u128::MAX,
        ensures
            final(self).tokens == old(self).tokens,
            match r {
                Ok((node, s)) => {
                    &&& final(self).pointer == old(self).pointer + 1
                    &&& final(self).counter == old(self).counter + 1
                    &&& tok_view(old(self).tokens@[old(self).pointer as int]) is Rb
                    &&& node@ == leaf_v(old(self).counter as int, "Rb"@)
                    &&& parser_wf(final(self).tokens@, final(self).pointer as int)
                },
                Err(pe) => {
                    &&& !(tok_view(old(self).tokens@[old(self).pointer as int]) is Rb)
                    &&& *final(self) == *old(self)
                    &&& pe.position == old(self).pointer
                    &&& pe.message@ == "Expected Rb"@
                },
            },
    {
        let pos = self.pointer;
        let n = self.tokens.len();
        proof {
            assert(pos < n);
        }
        let matched: Option<String> = match &self.tokens[pos] {
            Token::Rb(s) => Some(s.clone()),
            _ => None,
        };
        match matched {
            Some(sc) => {
                let id = to_decimal(self.counter);
                self.pointer = pos + 1;
                self.counter = self.counter + 1;
                let node = GraphVizNode::new_leaf(id, String::from_str("Rb"));
                proof {
                    assert(node@ =~= leaf_v(old(self).counter as int, "Rb"@));
                }
                Ok((node, sc))
            },
            None => Err(ParseError { position: pos, message: String::from_str("Expected Rb") }),
        }
    }

    #[allow(non_snake_case)]
    fn Mul(&mut self) -> (r: Result<(GraphVizNode, String), ParseError>)
        requires
            parser_wf(old(self).tokens@, old(self).pointer as int),
            old(self).counter < u128::MAX,
        ensures
            final(self).tokens == old(self).tokens,
            match r {
                Ok((node, s)) => {
                    &&& final(self).pointer == old(self).pointer + 1
                    &&& final(self).counter == old(self).counter + 1
                    &&& tok_view(old(self).tokens@[old(self).pointer as int]) is Mul
                    &&& node@ == leaf_v(old(self).counter as int, "Mul"@)
                    &&& parser_wf(final(self).tokens@, final(self).pointer as int)
                },
                Err(pe) => {
                    &&& !(tok_view(old(self).tokens@[old(self).pointer as int]) is Mul)
                    &&& *final(self) == *old(self)
                    &&& pe.position == old(self).pointer
                    &&& pe.message@ == "Expected Mul"@
                },
            },
    {
        let pos = self.pointer;
        let n = self.tokens.len();
        proof {
            assert(pos < n);
        }
        let matched: Option<String> = match &self.tokens[pos] {
            Token::Mul(s) => Some(s.clone()),
            _ => None,
        };
        match matched {
            Some(sc) => {
                let id = to_decimal(self.counter);
                self.pointer = pos + 1;
                self.counter = self.counter + 1;
                let node = GraphVizNode::new_leaf(id, String::from_str("Mul"));
                proof {
                    assert(node@ =~= leaf_v(old(self).counter as int, "Mul"@));
                }
                Ok((node, sc))
            },
            None => Err(ParseError { position: pos, message: String::from_str("Expected Mul") }),
        }
    }

    #[allow(non_snake_case)]
    fn Eof(&mut self) -> (r: Result<(String, GraphVizNode), ParseError>)
        requires
            parser_wf(old(self).tokens@, old(self).pointer as int),
            old(self).counter < u128::MAX,
        ensures
            final(self).tokens == old(self).tokens,
            match r {
                Ok((s, node)) => {
                    &&& final(self).pointer == old(self).pointer + 1
                    &&& final(self).counter == old(self).counter + 1
                    &&& tok_view(old(self).tokens@[old(self).pointer as int]) is Eof
                    &&& s@ == "Eof"@
                    &&& node@ == leaf_v(old(self).counter as int, "Eof"@)
                },
                Err(pe) => {
                    &&& !(tok_view(old(self).tokens@[old(self).pointer as int]) is Eof)
                    &&& *final(self) == *old(self)
                    &&& pe.position == old(self).pointer
                    &&& pe.message@ == "Expected eof"@
                },
            },
    {
        let pos = self.pointer;
        let n = self.tokens.len();
        proof {
            assert(pos < n);
        }
        let at_end = match &self.tokens[pos] {
            Token::Eof => true,
            _ => false,
        };
        if at_end {
            let id = to_decimal(self.counter);
            self.pointer = pos + 1;
            self.counter = self.counter + 1;
            let node = GraphVizNode::new_leaf(id, String::from_str("Eof"));
            proof {
                assert(node@ =~= leaf_v(old(self).counter as int, "Eof"@));
            }
            Ok((String::from_str("Eof"), node))
        } else {
            Err(ParseError { position: pos, message: String::from_str("Expected eof") })
        }
    }

    #[allow(non_snake_case)]
    #[verifier::rlimit(50)]
    fn S(&mut self) -> (r: Result<(GraphVizNode, i64), ParseError>)
        requires
            parser_wf(old(self).tokens@, old(self).pointer as int),
            counter_room(old(self).tokens@, old(self).pointer as int, old(self).counter as int, 10),
        ensures
            final(self).tokens == old(self).tokens,
            match r {
                Ok((node, v)) => {
                    &&& sp_s(
                        tok_views(old(self).tokens@),
                        old(self).pointer as int,
                        old(self).counter as int,
                    ) == Ok::<(NodeV, i64, int, int), (int, Seq<char>)>(
                        (node@, v, final(self).pointer as int, final(self).counter as int),
                    )
                    &&& old(self).pointer < final(self).pointer
                    &&& parser_wf(final(self).tokens@, final(self).pointer as int)
                    &&& final(self).counter <= old(self).counter + 14 * (final(self).pointer
                        - old(self).pointer) + 10
                },
                Err(pe) => sp_s(
                    tok_views(old(self).tokens@),
                    old(self).pointer as int,
                    old(self).counter as int,
                ) == Err::<(NodeV, i64, int, int), (int, Seq<char>)>(
                    (pe.position as int, pe.message@),
                ),
            },
    {
        let ghost ts = tok_views(old(self).tokens@);
        let ghost p0 = old(self).pointer as int;
        let ghost c0 = old(self).counter as int;
        proof {
            assert(ts[p0] == tok_view(old(self).tokens@[p0]));
        }
        let id = to_decimal(self.counter);
        let mut children: Vec<GraphVizNode> = Vec::new();
        self.counter = self.counter + 1;
        let sel = match &self.tokens[self.pointer] {
            Token::Minus(_) | Token::Num(_) | Token::Lb(_) => true,
            _ => false,
        };
        if !sel {
            return Err(
                ParseError { position: self.pointer, message: String::from_str("Can't match rule") },
            );
        }
        let (child, v1) = self.C()?;
        let ghost chv = child@;
        children.push(child);
        let node = GraphVizNode::new_node(id, String::from_str("S"), children);
        proof {
            assert(node@.children =~= seq![chv]);
            assert(node@ =~= node_v(c0, "S"@, seq![chv]));
        }
        Ok((node, v1))
    }

    #[allow(non_snake_case)]
    #[verifier::rlimit(50)]
    fn C(&mut self) -> (r: Result<(GraphVizNode, i64), ParseError>)
        requires
            parser_wf(old(self).tokens@, old(self).pointer as int),
            counter_room(old(self).tokens@, old(self).pointer as int, old(self).counter as int, 9),
        ensures
            final(self).tokens == old(self).tokens,
            match r {
                Ok((node, v)) => {
                    &&& sp_c(
                        tok_views(old(self).tokens@),
                        old(self).pointer as int,
                        old(self).counter as int,
                    ) == Ok::<(NodeV, i64, int, int), (int, Seq<char>)>(
                        (node@, v, final(self).pointer as int, final(self).counter as int),
                    )
                    &&& old(self).pointer < final(self).pointer
                    &&& parser_wf(final(self).tokens@, final(self).pointer as int)
                    &&& final(self).counter <= old(self).counter + 14 * (final(self).pointer
                        - old(self).pointer) + 9
                },
                Err(pe) => sp_c(
                    tok_views(old(self).tokens@),
                    old(self).pointer as int,
                    old(self).counter as int,
                ) == Err::<(NodeV, i64, int, int), (int, Seq<char>)>(
                    (pe.position as int, pe.message@),
                ),
            },
        decreases old(self).tokens@.len() - old(self).pointer, 7int,
    {
        let ghost ts = tok_views(old(self).tokens@);
        let ghost p0 = old(self).pointer as int;
        let ghost c0 = old(self).counter as int;
        proof {
            assert(ts[p0] == tok_view(old(self).tokens@[p0]));
        }
        let id = to_decimal(self.counter);
        let mut children: Vec<GraphVizNode> = Vec::new();
        self.counter = self.counter + 1;
        let sel = match &self.tokens[self.pointer] {
            Token::Num(_) | Token::Minus(_) | Token::Lb(_) => true,
            _ => false,
        };
        if !sel {
            return Err(
                ParseError { position: self.pointer, message: String::from_str("Can't match rule") },
            );
        }
        let (child1, v1) = self.E()?;
        let ghost ch1 = child1@;
        children.push(child1);
        let (child2, v2) = self.Cx(v1)?;
        let ghost ch2 = child2@;
        children.push(child2);
        let node = GraphVizNode::new_node(id, String::from_str("C"), children);
        proof {
            assert(node@.children =~= seq![ch1, ch2]);
            assert(node@ =~= node_v(c0, "C"@, seq![ch1, ch2]));
        }
        Ok((node, v2))
    }

    #[allow(non_snake_case)]
    #[verifier::rlimit(50)]
    fn Cx(&mut self, acc: i64) -> (r: Result<(GraphVizNode, i64), ParseError>)
        requires
            parser_wf(old(self).tokens@, old(self).pointer as int),
            counter_room(old(self).tokens@, old(self).pointer as int, old(self).counter as int, 1),
        ensures
            final(self).tokens == old(self).tokens,
            match r {
                Ok((node, v)) => {
                    &&& sp_cx(
                        tok_views(old(self).tokens@),
                        old(self).pointer as int,
                        old(self).counter as int,
                        acc,
                    ) == Ok::<(NodeV, i64, int, int), (int, Seq<char>)>(
                        (node@, v, final(self).pointer as int, final(self).counter as int),
                    )
                    &&& old(self).pointer <= final(self).pointer
                    &&& parser_wf(final(self).tokens@, final(self).pointer as int)
                    &&& final(self).counter <= old(self).counter + 14 * (final(self).pointer
                        - old(self).pointer) + 1
                },
                Err(pe) => sp_cx(
                    tok_views(old(self).tokens@),
                    old(self).pointer as int,
                    old(self).counter as int,
                    acc,
                ) == Err::<(NodeV, i64, int, int), (int, Seq<char>)>(
                    (pe.position as int, pe.message@),
                ),
            },
        decreases old(self).tokens@.len() - old(self).pointer, 9int,
    {
        let ghost ts = tok_views(old(self).tokens@);
        let ghost p0 = old(self).pointer as int;
        let ghost c0 = old(self).counter as int;
        proof {
            assert(ts[p0] == tok_view(old(self).tokens@[p0]));
        }
        let id = to_decimal(self.counter);
        let mut children: Vec<GraphVizNode> = Vec::new();
        self.counter = self.counter + 1;
        let sel: u8 = match &self.tokens[self.pointer] {
            Token::Comb(_) => 1,
            Token::Eof => 2,
            _ => 0,
        };
        if sel == 1 {
            let (child0, _ident) = self.Comb()?;
            let ghost ch0 = child0@;
            children.push(child0);
            let (child1, v1) = self.E()?;
            let ghost ch1 = child1@;
            children.push(child1);
            let cc = match comb(acc, v1) {
                Some(v) => v,
                None => {
                    return Err(
                        ParseError {
                            position: self.pointer,
                            message: String::from_str("Invalid combination"),
                        },
                    );
                },
            };
            let (child2, v2) = self.Cx(cc)?;
            let ghost ch2 = child2@;
            children.push(child2);
            let node = GraphVizNode::new_node(id, String::from_str("Cx"), children);
            proof {
                assert(node@.children =~= seq![ch0, ch1, ch2]);
                assert(node@ =~= node_v(c0, "Cx"@, seq![leaf_v(c0 + 1, "Comb"@), ch1, ch2]));
            }
            Ok((node, v2))
        } else if sel == 2 {
            let node = GraphVizNode::new_node(id, String::from_str("Cx"), children);
            proof {
                assert(node@.children =~= Seq::<NodeV>::empty());
                assert(node@ =~= node_v(c0, "Cx"@, Seq::empty()));
            }
            Ok((node, acc))
        } else {
            Err(ParseError { position: self.pointer, message: String::from_str("Can't match rule") })
        }
    }

    #[allow(non_snake_case)]
    #[verifier::rlimit(50)]
    fn E(&mut self) -> (r: Result<(GraphVizNode, i64), ParseError>)
        requires
            parser_wf(old(self).tokens@, old(self).pointer as int),
            counter_room(old(self).tokens@, old(self).pointer as int, old(self).counter as int, 7),
        ensures
            final(self).tokens == old(self).tokens,
            match r {
                Ok((node, v)) => {
                    &&& sp_e(
                        tok_views(old(self).tokens@),
                        old(self).pointer as int,
                        old(self).counter as int,
                    ) == Ok::<(NodeV, i64, int, int), (int, Seq<char>)>(
                        (node@, v, final(self).pointer as int, final(self).counter as int),
                    )
                    &&& old(self).pointer < final(self).pointer
                    &&& parser_wf(final(self).tokens@, final(self).pointer as int)
                    &&& final(self).counter <= old(self).counter + 14 * (final(self).pointer
                        - old(self).pointer) + 7
                },
                Err(pe) => sp_e(
                    tok_views(old(self).tokens@),
                    old(self).pointer as int,
                    old(self).counter as int,
                ) == Err::<(NodeV, i64, int, int), (int, Seq<char>)>(
                    (pe.position as int, pe.message@),
                ),
            },
        decreases old(self).tokens@.len() - old(self).pointer, 6int,
    {
        let ghost ts = tok_views(old(self).tokens@);
        let ghost p0 = old(self).pointer as int;
        let ghost c0 = old(self).counter as int;
        proof {
            assert(ts[p0] == tok_view(old(self).tokens@[p0]));
        }
        let id = to_decimal(self.counter);
        let mut children: Vec<GraphVizNode> = Vec::new();
        self.counter = self.counter + 1;
        let sel = match &self.tokens[self.pointer] {
            Token::Lb(_) | Token::Minus(_) | Token::Num(_) => true,
            _ => false,
        };
        if !sel {
            return Err(
                ParseError { position: self.pointer, message: String::from_str("Can't match rule") },
            );
        }
        let (child1, v1) = self.T()?;
        let ghost ch1 = child1@;
        children.push(child1);
        let (child2, v2) = self.Ex(v1)?;
        let ghost ch2 = child2@;
        children.push(child2);
        let node = GraphVizNode::new_node(id, String::from_str("E"), children);
        proof {
            assert(node@.children =~= seq![ch1, ch2]);
            assert(node@ =~= node_v(c0, "E"@, seq![ch1, ch2]));
        }
        Ok((node, v2))
    }

    #[allow(non_snake_case)]
    #[verifier::rlimit(50)]
    fn Ex(&mut self, acc: i64) -> (r: Result<(GraphVizNode, i64), ParseError>)
        requires
            parser_wf(old(self).tokens@, old(self).pointer as int),
            counter_room(old(self).tokens@, old(self).pointer as int, old(self).counter as int, 1),
        ensures
            final(self).tokens == old(self).tokens,
            match r {
                Ok((node, v)) => {
                    &&& sp_ex(
                        tok_views(old(self).tokens@),
                        old(self).pointer as int,
                        old(self).counter as int,
                        acc,
                    ) == Ok::<(NodeV, i64, int, int), (int, Seq<char>)>(
                        (node@, v, final(self).pointer as int, final(self).counter as int),
                    )
                    &&& old(self).pointer <= final(self).pointer
                    &&& parser_wf(final(self).tokens@, final(self).pointer as int)
                    &&& final(self).counter <= old(self).counter + 14 * (final(self).pointer
                        - old(self).pointer) + 1
                },
                Err(pe) => sp_ex(
                    tok_views(old(self).tokens@),
                    old(self).pointer as int,
                    old(self).counter as int,
                    acc,
                ) == Err::<(NodeV, i64, int, int), (int, Seq<char>)>(
                    (pe.position as int, pe.message@),
                ),
            },
        decreases old(self).tokens@.len() - old(self).pointer, 9int,
    {
        let ghost ts = tok_views(old(self).tokens@);
        let ghost p0 = old(self).pointer as int;
        let ghost c0 = old(self).counter as int;
        proof {
            assert(ts[p0] == tok_view(old(self).tokens@[p0]));
        }
        let id = to_decimal(self.counter);
        let mut children: Vec<GraphVizNode> = Vec::new();
        self.counter = self.counter + 1;
        let sel: u8 = match &self.tokens[self.pointer] {
            Token::Plus(_) => 1,
            Token::Minus(_) => 2,
            Token::Rb(_) | Token::Eof | Token::Comb(_) => 3,
            _ => 0,
        };
        if sel == 1 {
            let (child0, _ident) = self.Plus()?;
            let ghost ch0 = child0@;
            children.push(child0);
            let (child1, v1) = self.T()?;
            let ghost ch1 = child1@;
            children.push(child1);
            let (child2, v2) = self.Ex(acc.wrapping_add(v1))?;
            let ghost ch2 = child2@;
            children.push(child2);
            let node = GraphVizNode::new_node(id, String::from_str("Ex"), children);
            proof {
                assert(node@.children =~= seq![ch0, ch1, ch2]);
                assert(node@ =~= node_v(c0, "Ex"@, seq![leaf_v(c0 + 1, "Plus"@), ch1, ch2]));
            }
            Ok((node, v2))
        } else if sel == 2 {
            let (child0, _ident) = self.Minus()?;
            let ghost ch0 = child0@;
            children.push(child0);
            let (child1, v1) = self.T()?;
            let ghost ch1 = child1@;
            children.push(child1);
            let (child2, v2) = self.Ex(acc.wrapping_sub(v1))?;
            let ghost ch2 = child2@;
            children.push(child2);
            let node = GraphVizNode::new_node(id, String::from_str("Ex"), children);
            proof {
                assert(node@.children =~= seq![ch0, ch1, ch2]);
                assert(node@ =~= node_v(c0, "Ex"@, seq![leaf_v(c0 + 1, "Minus"@), ch1, ch2]));
            }
            Ok((node, v2))
        } else if sel == 3 {
            let node = GraphVizNode::new_node(id, String::from_str("Ex"), children);
            proof {
                assert(node@.children =~= Seq::<NodeV>::empty());
                assert(node@ =~= node_v(c0, "Ex"@, Seq::empty()));
            }
            Ok((node, acc))
        } else {
            Err(ParseError { position: self.pointer, message: String::from_str("Can't match rule") })
        }
    }

    #[allow(non_snake_case)]
    #[verifier::rlimit(50)]
    fn T(&mut self) -> (r: Result<(GraphVizNode, i64), ParseError>)
        requires
            parser_wf(old(self).tokens@, old(self).pointer as int),
            counter_room(old(self).tokens@, old(self).pointer as int, old(self).counter as int, 5),
        ensures
            final(self).tokens == old(self).tokens,
            match r {
                Ok((node, v)) => {
                    &&& sp_t(
                        tok_views(old(self).tokens@),
                        old(self).pointer as int,
                        old(self).counter as int,
                    ) == Ok::<(NodeV, i64, int, int), (int, Seq<char>)>(
                        (node@, v, final(self).pointer as int, final(self).counter as int),
                    )
                    &&& old(self).pointer < final(self).pointer
                    &&& parser_wf(final(self).tokens@, final(self).pointer as int)
                    &&& final(self).counter <= old(self).counter + 14 * (final(self).pointer
                        - old(self).pointer) + 5
                },
                Err(pe) => sp_t(
                    tok_views(old(self).tokens@),
                    old(self).pointer as int,
                    old(self).counter as int,
                ) == Err::<(NodeV, i64, int, int), (int, Seq<char>)>(
                    (pe.position as int, pe.message@),
                ),
            },
        decreases old(self).tokens@.len() - old(self).pointer, 4int,
    {
        let ghost ts = tok_views(old(self).tokens@);
        let ghost p0 = old(self).pointer as int;
        let ghost c0 = old(self).counter as int;
        proof {
            assert(ts[p0] == tok_view(old(self).tokens@[p0]));
        }
        let id = to_decimal(self.counter);
        let mut children: Vec<GraphVizNode> = Vec::new();
        self.counter = self.counter + 1;
        let sel = match &self.tokens[self.pointer] {
            Token::Minus(_) | Token::Num(_) | Token::Lb(_) => true,
            _ => false,
        };
        if !sel {
            return Err(
                ParseError { position: self.pointer, message: String::from_str("Can't match rule") },
            );
        }
        let (child1, v1) = self.F()?;
        let ghost ch1 = child1@;
        children.push(child1);
        let (child2, v2) = self.Tx(v1)?;
        let ghost ch2 = child2@;
        children.push(child2);
        let node = GraphVizNode::new_node(id, String::from_str("T"), children);
        proof {
            assert(node@.children =~= seq![ch1, ch2]);
            assert(node@ =~= node_v(c0, "T"@, seq![ch1, ch2]));
        }
        Ok((node, v2))
    }

    #[allow(non_snake_case)]
    #[verifier::rlimit(50)]
    fn Tx(&mut self, acc: i64) -> (r: Result<(GraphVizNode, i64), ParseError>)
        requires
            parser_wf(old(self).tokens@, old(self).pointer as int),
            counter_room(old(self).tokens@, old(self).pointer as int, old(self).counter as int, 1),
        ensures
            final(self).tokens == old(self).tokens,
            match r {
                Ok((node, v)) => {
                    &&& sp_tx(
                        tok_views(old(self).tokens@),
                        old(self).pointer as int,
                        old(self).counter as int,
                        acc,
                    ) == Ok::<(NodeV, i64, int, int), (int, Seq<char>)>(
                        (node@, v, final(self).pointer as int, final(self).counter as int),
                    )
                    &&& old(self).pointer <= final(self).pointer
                    &&& parser_wf(final(self).tokens@, final(self).pointer as int)
                    &&& final(self).counter <= old(self).counter + 14 * (final(self).pointer
                        - old(self).pointer) + 1
                },
                Err(pe) => sp_tx(
                    tok_views(old(self).tokens@),
                    old(self).pointer as int,
                    old(self).counter as int,
                    acc,
                ) == Err::<(NodeV, i64, int, int), (int, Seq<char>)>(
                    (pe.position as int, pe.message@),
                ),
            },
        decreases old(self).tokens@.len() - old(self).pointer, 9int,
    {
        let ghost ts = tok_views(old(self).tokens@);
        let ghost p0 = old(self).pointer as int;
        let ghost c0 = old(self).counter as int;
        proof {
            assert(ts[p0] == tok_view(old(self).tokens@[p0]));
        }
        let id = to_decimal(self.counter);
        let mut children: Vec<GraphVizNode> = Vec::new();
        self.counter = self.counter + 1;
        let sel: u8 = match &self.tokens[self.pointer] {
            Token::Mul(_) => 1,
            Token::Div(_) => 2,
            Token::Plus(_) | Token::Comb(_) | Token::Eof | Token::Rb(_) | Token::Minus(_) => 3,
            _ => 0,
        };
        if sel == 1 {
            let (child0, _ident) = self.Mul()?;
            let ghost ch0 = child0@;
            children.push(child0);
            let (child1, v1) = self.F()?;
            let ghost ch1 = child1@;
            children.push(child1);
            let (child2, v2) = self.Tx(acc.wrapping_mul(v1))?;
            let ghost ch2 = child2@;
            children.push(child2);
            let node = GraphVizNode::new_node(id, String::from_str("Tx"), children);
            proof {
                assert(node@.children =~= seq![ch0, ch1, ch2]);
                assert(node@ =~= node_v(c0, "Tx"@, seq![leaf_v(c0 + 1, "Mul"@), ch1, ch2]));
            }
            Ok((node, v2))
        } else if sel == 2 {
            let (child0, _ident) = self.Div()?;
            let ghost ch0 = child0@;
            children.push(child0);
            let (child1, v1) = self.F()?;
            let ghost ch1 = child1@;
            children.push(child1);
            if v1 == 0 {
                return Err(
                    ParseError {
                        position: self.pointer,
                        message: String::from_str("Division by zero"),
                    },
                );
            }
            let (child2, v2) = self.Tx(div_i64(acc, v1))?;
            let ghost ch2 = child2@;
            children.push(child2);
            let node = GraphVizNode::new_node(id, String::from_str("Tx"), children);
            proof {
                assert(node@.children =~= seq![ch0, ch1, ch2]);
                assert(node@ =~= node_v(c0, "Tx"@, seq![leaf_v(c0 + 1, "Div"@), ch1, ch2]));
            }
            Ok((node, v2))
        } else if sel == 3 {
            let node = GraphVizNode::new_node(id, String::from_str("Tx"), children);
            proof {
                assert(node@.children =~= Seq::<NodeV>::empty());
                assert(node@ =~= node_v(c0, "Tx"@, Seq::empty()));
            }
            Ok((node, acc))
        } else {
            Err(ParseError { position: self.pointer, message: String::from_str("Can't match rule") })
        }
    }

    #[allow(non_snake_case)]
    #[verifier::rlimit(50)]
    fn F(&mut self) -> (r: Result<(GraphVizNode, i64), ParseError>)
        requires
            parser_wf(old(self).tokens@, old(self).pointer as int),
            counter_room(old(self).tokens@, old(self).pointer as int, old(self).counter as int, 3),
        ensures
            final(self).tokens == old(self).tokens,
            match r {
                Ok((node, v)) => {
                    &&& sp_f(
                        tok_views(old(self).tokens@),
                        old(self).pointer as int,
                        old(self).counter as int,
                    ) == Ok::<(NodeV, i64, int, int), (int, Seq<char>)>(
                        (node@, v, final(self).pointer as int, final(self).counter as int),
                    )
                    &&& old(self).pointer < final(self).pointer
                    &&& parser_wf(final(self).tokens@, final(self).pointer as int)
                    &&& final(self).counter <= old(self).counter + 14 * (final(self).pointer
                        - old(self).pointer) + 3
                },
                Err(pe) => sp_f(
                    tok_views(old(self).tokens@),
                    old(self).pointer as int,
                    old(self).counter as int,
                ) == Err::<(NodeV, i64, int, int), (int, Seq<char>)>(
                    (pe.position as int, pe.message@),
                ),
            },
        decreases old(self).tokens@.len() - old(self).pointer, 2int,
    {
        let ghost ts = tok_views(old(self).tokens@);
        let ghost p0 = old(self).pointer as int;
        let ghost c0 = old(self).counter as int;
        proof {
            assert(ts[p0] == tok_view(old(self).tokens@[p0]));
        }
        let id = to_decimal(self.counter);
        let mut children: Vec<GraphVizNode> = Vec::new();
        self.counter = self.counter + 1;
        let sel: u8 = match &self.tokens[self.pointer] {
            Token::Minus(_) => 1,
            Token::Lb(_) | Token::Num(_) => 2,
            _ => 0,
        };
        if sel == 1 {
            let (child0, _ident) = self.Minus()?;
            let ghost ch0 = child0@;
            children.push(child0);
            let (child1, v1) = self.F()?;
            let ghost ch1 = child1@;
            children.push(child1);
            let node = GraphVizNode::new_node(id, String::from_str("F"), children);
            proof {
                assert(node@.children =~= seq![ch0, ch1]);
                assert(node@ =~= node_v(c0, "F"@, seq![leaf_v(c0 + 1, "Minus"@), ch1]));
            }
            Ok((node, 0i64.wrapping_sub(v1)))
        } else if sel == 2 {
            let (child1, v1) = self.P()?;
            let ghost ch1 = child1@;
            children.push(child1);
            let node = GraphVizNode::new_node(id, String::from_str("F"), children);
            proof {
                assert(node@.children =~= seq![ch1]);
                assert(node@ =~= node_v(c0, "F"@, seq![ch1]));
            }
            Ok((node, v1))
        } else {
            Err(ParseError { position: self.pointer, message: String::from_str("Can't match rule") })
        }
    }

    #[allow(non_snake_case)]
    #[verifier::rlimit(50)]
    fn P(&mut self) -> (r: Result<(GraphVizNode, i64), ParseError>)
        requires
            parser_wf(old(self).tokens@, old(self).pointer as int),
            counter_room(old(self).tokens@, old(self).pointer as int, old(self).counter as int, 2),
        ensures
            final(self).tokens == old(self).tokens,
            match r {
                Ok((node, v)) => {
                    &&& sp_p(
                        tok_views(old(self).tokens@),
                        old(self).pointer as int,
                        old(self).counter as int,
                    ) == Ok::<(NodeV, i64, int, int), (int, Seq<char>)>(
                        (node@, v, final(self).pointer as int, final(self).counter as int),
                    )
                    &&& old(self).pointer < final(self).pointer
                    &&& parser_wf(final(self).tokens@, final(self).pointer as int)
                    &&& final(self).counter <= old(self).counter + 14 * (final(self).pointer
                        - old(self).pointer) + 2
                },
                Err(pe) => sp_p(
                    tok_views(old(self).tokens@),
                    old(self).pointer as int,
                    old(self).counter as int,
                ) == Err::<(NodeV, i64, int, int), (int, Seq<char>)>(
                    (pe.position as int, pe.message@),
                ),
            },
        decreases old(self).tokens@.len() - old(self).pointer, 1int,
    {
        let ghost ts = tok_views(old(self).tokens@);
        let ghost p0 = old(self).pointer as int;
        let ghost c0 = old(self).counter as int;
        proof {
            assert(ts[p0] == tok_view(old(self).tokens@[p0]));
        }
        let id = to_decimal(self.counter);
        let mut children: Vec<GraphVizNode> = Vec::new();
        self.counter = self.counter + 1;
        let sel: u8 = match &self.tokens[self.pointer] {
            Token::Lb(_) => 1,
            Token::Num(_) => 2,
            _ => 0,
        };
        if sel == 1 {
            let (child0, _ident) = self.Lb()?;
            let ghost ch0 = child0@;
            children.push(child0);
            let (child1, v1) = self.E()?;
            let ghost ch1 = child1@;
            children.push(child1);
            let ghost pe1 = self.pointer as int;
            let ghost ce1 = self.counter as int;
            proof {
                assert(ts[pe1] == tok_view(old(self).tokens@[pe1]));
            }
            let (child2, _ident2) = self.Rb()?;
            let ghost ch2 = child2@;
            children.push(child2);
            let node = GraphVizNode::new_node(id, String::from_str("P"), children);
            proof {
                assert(node@.children =~= seq![ch0, ch1, ch2]);
                assert(node@ =~= node_v(
                    c0,
                    "P"@,
                    seq![leaf_v(c0 + 1, "Lb"@), ch1, leaf_v(ce1, "Rb"@)],
                ));
            }
            Ok((node, v1))
        } else if sel == 2 {
            let (child0, ident) = self.Num()?;
            let ghost ch0 = child0@;
            children.push(child0);
            let v = match parse_dec_i64(ident.as_str()) {
                Some(v) => v,
                None => {
                    return Err(
                        ParseError {
                            position: self.pointer,
                            message: String::from_str("Invalid number"),
                        },
                    );
                },
            };
            let node = GraphVizNode::new_node(id, String::from_str("P"), children);
            proof {
                assert(node@.children =~= seq![ch0]);
                assert(node@ =~= node_v(c0, "P"@, seq![leaf_v(c0 + 1, "Num"@)]));
            }
            Ok((node, v))
        } else {
            Err(ParseError { position: self.pointer, message: String::from_str("Can't match rule") })
        }
    }
}

/// Runs the calculator parser on `input`: tokenize, then parse from the
/// start symbol. On success the parse tree and the computed value are
/// returned; on failure, the position and message of the first error.
pub fn parse(input: String) -> (r: Result<(GraphVizNode, i64), ParseError>)
    ensures
        ({
            let scan = lex_spec(calc_skip_pats(), calc_token_pats(), input@, 0);
            match r {
                Ok((node, v)) => {
                    &&& scan is Ok
                    &&& sp_s(toks_of_items(scan->Ok_0, encode_utf8(input@)), 0, 0) matches Ok(o)
                        && o.0 == node@ && o.1 == v
                },
                Err(pe) => {
                    if scan is Ok {
                        sp_s(toks_of_items(scan->Ok_0, encode_utf8(input@)), 0, 0) == Err::<
                            (NodeV, i64, int, int),
                            (int, Seq<char>),
                        >((pe.position as int, pe.message@))
                    } else {
                        scan == Err::<Seq<(int, int, int)>, int>(pe.position as int) && pe.message@
                            == "Expected token"@
                    }
                },
            }
        }),
{
    let toks = match Tokenizer::tokenize(input) {
        Ok(t) => t,
        Err(e) => {
            return Err(e);
        },
    };
    let n = toks.len();
    let mut parser = Parser::new(toks);
    proof {
        assert(parser.tokens@.len() <= usize::MAX);
    }
    match parser.S() {
        Ok((node, v)) => Ok((node, v)),
        Err(e) => Err(e),
    }
}

/// Determinism: the parser is a function of the token stream, so two
/// accepted runs over the same tokens agree on the tree view (ids and
/// shape alike) and on the computed value.
pub proof fn lemma_parse_deterministic(ts: Seq<TokV>, n1: NodeV, v1: i64, n2: NodeV, v2: i64)
    requires
        sp_s(ts, 0, 0) matches Ok(o1) && o1.0 == n1 && o1.1 == v1,
        sp_s(ts, 0, 0) matches Ok(o2) && o2.0 == n2 && o2.1 == v2,
    ensures
        n1 == n2,
        v1 == v2,
{
}

proof fn lemma_leaf_ids(c: int, label: Seq<char>)
    requires
        c >= 0,
    ensures
        ids_consecutive(leaf_v(c, label), c as nat),
        tree_size(leaf_v(c, label)) == 1,
{
    assert(ids_consecutive_list(leaf_v(c, label).children, (c + 1) as nat, 0));
    assert(tree_size_list(leaf_v(c, label).children, 0) == 0);
}

proof fn lemma_sp_s_ids(ts: Seq<TokV>, p: int, c: int)
    requires
        c >= 0,
        sp_s(ts, p, c) is Ok,
    ensures
        ({
            let o = sp_s(ts, p, c)->Ok_0;
            ids_consecutive(o.0, c as nat) && o.3 == c + tree_size(o.0)
        }),
    decreases ts.len() - p, 8int,
{
    let o = sp_s(ts, p, c)->Ok_0;
    lemma_sp_c_ids(ts, p, c + 1);
    let o1 = sp_c(ts, p, c + 1)->Ok_0;
    lemma_list_ids_1(o1.0, c);
}

proof fn lemma_sp_c_ids(ts: Seq<TokV>, p: int, c: int)
    requires
        c >= 0,
        sp_c(ts, p, c) is Ok,
    ensures
        ({
            let o = sp_c(ts, p, c)->Ok_0;
            ids_consecutive(o.0, c as nat) && o.3 == c + tree_size(o.0)
        }),
    decreases ts.len() - p, 7int,
{
    let o = sp_c(ts, p, c)->Ok_0;
    lemma_sp_e_ids(ts, p, c + 1);
    let o1 = sp_e(ts, p, c + 1)->Ok_0;
    lemma_sp_cx_ids(ts, o1.2, o1.3, o1.1);
    let o2 = sp_cx(ts, o1.2, o1.3, o1.1)->Ok_0;
    lemma_list_ids_2(o1.0, o2.0, c);
}

proof fn lemma_sp_cx_ids(ts: Seq<TokV>, p: int, c: int, acc: i64)
    requires
        c >= 0,
        sp_cx(ts, p, c, acc) is Ok,
    ensures
        ({
            let o = sp_cx(ts, p, c, acc)->Ok_0;
            ids_consecutive(o.0, c as nat) && o.3 == c + tree_size(o.0)
        }),
    decreases ts.len() - p, 9int,
{
    let o = sp_cx(ts, p, c, acc)->Ok_0;
    match ts[p] {
        TokV::Comb(_) => {
            lemma_leaf_ids(c + 1, "Comb"@);
            lemma_sp_e_ids(ts, p + 1, c + 2);
            let o1 = sp_e(ts, p + 1, c + 2)->Ok_0;
            let cc = spec_comb(acc as int, o1.1 as int)->Some_0;
            lemma_sp_cx_ids(ts, o1.2, o1.3, cc);
            let o2 = sp_cx(ts, o1.2, o1.3, cc)->Ok_0;
            lemma_list_ids_3(leaf_v(c + 1, "Comb"@), o1.0, o2.0, c);
        },
        TokV::Eof => {
            assert(ids_consecutive_list(o.0.children, (c + 1) as nat, 0));
            assert(tree_size_list(o.0.children, 0) == 0);
        },
        _ => {},
    }
}

proof fn lemma_sp_e_ids(ts: Seq<TokV>, p: int, c: int)
    requires
        c >= 0,
        sp_e(ts, p, c) is Ok,
    ensures
        ({
            let o = sp_e(ts, p, c)->Ok_0;
            ids_consecutive(o.0, c as nat) && o.3 == c + tree_size(o.0)
        }),
    decreases ts.len() - p, 6int,
{
    let o = sp_e(ts, p, c)->Ok_0;
    lemma_sp_t_ids(ts, p, c + 1);
    let o1 = sp_t(ts, p, c + 1)->Ok_0;
    lemma_sp_ex_ids(ts, o1.2, o1.3, o1.1);
    let o2 = sp_ex(ts, o1.2, o1.3, o1.1)->Ok_0;
    lemma_list_ids_2(o1.0, o2.0, c);
}

proof fn lemma_sp_ex_ids(ts: Seq<TokV>, p: int, c: int, acc: i64)
    requires
        c >= 0,
        sp_ex(ts, p, c, acc) is Ok,
    ensures
        ({
            let o = sp_ex(ts, p, c, acc)->Ok_0;
            ids_consecutive(o.0, c as nat) && o.3 == c + tree_size(o.0)
        }),
    decreases ts.len() - p, 9int,
{
    let o = sp_ex(ts, p, c, acc)->Ok_0;
    match ts[p] {
        TokV::Plus(_) => {
            lemma_leaf_ids(c + 1, "Plus"@);
            lemma_sp_t_ids(ts, p + 1, c + 2);
            let o1 = sp_t(ts, p + 1, c + 2)->Ok_0;
            let a2 = vstd::wrapping::i64_specs::wrapping_add(acc, o1.1);
            lemma_sp_ex_ids(ts, o1.2, o1.3, a2);
            let o2 = sp_ex(ts, o1.2, o1.3, a2)->Ok_0;
            lemma_list_ids_3(leaf_v(c + 1, "Plus"@), o1.0, o2.0, c);
        },
        TokV::Minus(_) => {
            lemma_leaf_ids(c + 1, "Minus"@);
            lemma_sp_t_ids(ts, p + 1, c + 2);
            let o1 = sp_t(ts, p + 1, c + 2)->Ok_0;
            let a2 = vstd::wrapping::i64_specs::wrapping_sub(acc, o1.1);
            lemma_sp_ex_ids(ts, o1.2, o1.3, a2);
            let o2 = sp_ex(ts, o1.2, o1.3, a2)->Ok_0;
            lemma_list_ids_3(leaf_v(c + 1, "Minus"@), o1.0, o2.0, c);
        },
        TokV::Rb(_) | TokV::Eof | TokV::Comb(_) => {
            assert(ids_consecutive_list(o.0.children, (c + 1) as nat, 0));
            assert(tree_size_list(o.0.children, 0) == 0);
        },
        _ => {},
    }
}

proof fn lemma_sp_t_ids(ts: Seq<TokV>, p: int, c: int)
    requires
        c >= 0,
        sp_t(ts, p, c) is Ok,
    ensures
        ({
            let o = sp_t(ts, p, c)->Ok_0;
            ids_consecutive(o.0, c as nat) && o.3 == c + tree_size(o.0)
        }),
    decreases ts.len() - p, 4int,
{
    let o = sp_t(ts, p, c)->Ok_0;
    lemma_sp_f_ids(ts, p, c + 1);
    let o1 = sp_f(ts, p, c + 1)->Ok_0;
    lemma_sp_tx_ids(ts, o1.2, o1.3, o1.1);
    let o2 = sp_tx(ts, o1.2, o1.3, o1.1)->Ok_0;
    lemma_list_ids_2(o1.0, o2.0, c);
}

proof fn lemma_sp_tx_ids(ts: Seq<TokV>, p: int, c: int, acc: i64)
    requires
        c >= 0,
        sp_tx(ts, p, c, acc) is Ok,
    ensures
        ({
            let o = sp_tx(ts, p, c, acc)->Ok_0;
            ids_consecutive(o.0, c as nat) && o.3 == c + tree_size(o.0)
        }),
    decreases ts.len() - p, 9int,
{
    let o = sp_tx(ts, p, c, acc)->Ok_0;
    match ts[p] {
        TokV::Mul(_) => {
            lemma_leaf_ids(c + 1, "Mul"@);
            lemma_sp_f_ids(ts, p + 1, c + 2);
            let o1 = sp_f(ts, p + 1, c + 2)->Ok_0;
            let a2 = vstd::wrapping::i64_specs::wrapping_mul(acc, o1.1);
            lemma_sp_tx_ids(ts, o1.2, o1.3, a2);
            let o2 = sp_tx(ts, o1.2, o1.3, a2)->Ok_0;
            lemma_list_ids_3(leaf_v(c + 1, "Mul"@), o1.0, o2.0, c);
        },
        TokV::Div(_) => {
            lemma_leaf_ids(c + 1, "Div"@);
            lemma_sp_f_ids(ts, p + 1, c + 2);
            let o1 = sp_f(ts, p + 1, c + 2)->Ok_0;
            let a2 = wrap_div_i64(acc, o1.1);
            lemma_sp_tx_ids(ts, o1.2, o1.3, a2);
            let o2 = sp_tx(ts, o1.2, o1.3, a2)->Ok_0;
            lemma_list_ids_3(leaf_v(c + 1, "Div"@), o1.0, o2.0, c);
        },
        TokV::Plus(_) | TokV::Comb(_) | TokV::Eof | TokV::Rb(_) | TokV::Minus(_) => {
            assert(ids_consecutive_list(o.0.children, (c + 1) as nat, 0));
            assert(tree_size_list(o.0.children, 0) == 0);
        },
        _ => {},
    }
}

proof fn lemma_sp_f_ids(ts: Seq<TokV>, p: int, c: int)
    requires
        c >= 0,
        sp_f(ts, p, c) is Ok,
    ensures
        ({
            let o = sp_f(ts, p, c)->Ok_0;
            ids_consecutive(o.0, c as nat) && o.3 == c + tree_size(o.0)
        }),
    decreases ts.len() - p, 2int,
{
    let o = sp_f(ts, p, c)->Ok_0;
    match ts[p] {
        TokV::Minus(_) => {
            lemma_leaf_ids(c + 1, "Minus"@);
            lemma_sp_f_ids(ts, p + 1, c + 2);
            let o1 = sp_f(ts, p + 1, c + 2)->Ok_0;
            lemma_list_ids_2(leaf_v(c + 1, "Minus"@), o1.0, c);
        },
        TokV::Lb(_) | TokV::Num(_) => {
            lemma_sp_p_ids(ts, p, c + 1);
            let o1 = sp_p(ts, p, c + 1)->Ok_0;
            lemma_list_ids_1(o1.0, c);
        },
        _ => {},
    }
}

proof fn lemma_sp_p_ids(ts: Seq<TokV>, p: int, c: int)
    requires
        c >= 0,
        sp_p(ts, p, c) is Ok,
    ensures
        ({
            let o = sp_p(ts, p, c)->Ok_0;
            ids_consecutive(o.0, c as nat) && o.3 == c + tree_size(o.0)
        }),
    decreases ts.len() - p, 1int,
{
    let o = sp_p(ts, p, c)->Ok_0;
    match ts[p] {
        TokV::Lb(_) => {
            lemma_leaf_ids(c + 1, "Lb"@);
            lemma_sp_e_ids(ts, p + 1, c + 2);
            let o1 = sp_e(ts, p + 1, c + 2)->Ok_0;
            lemma_leaf_ids(o1.3, "Rb"@);
            lemma_list_ids_3(leaf_v(c + 1, "Lb"@), o1.0, leaf_v(o1.3, "Rb"@), c);
        },
        TokV::Num(_) => {
            lemma_leaf_ids(c + 1, "Num"@);
            lemma_list_ids_1(leaf_v(c + 1, "Num"@), c);
        },
        _ => {},
    }
}

/// Node-id preorder: an accepted parse numbers its nodes with
/// consecutive counter values in preorder from zero, so each descendant's
/// id decodes a strictly larger counter than its ancestor's (see
/// `crate::graphviz::lemma_preorder_ids`).
pub proof fn lemma_parse_ids_preorder(ts: Seq<TokV>)
    requires
        sp_s(ts, 0, 0) is Ok,
    ensures
        ids_consecutive(sp_s(ts, 0, 0)->Ok_0.0, 0),
{
    lemma_sp_s_ids(ts, 0, 0);
}

} // verus!
