//! A boolean-expression parser in the exact shape the generator emits:
//! keyword tokens declared before the one-letter variable class (the
//! first-match-by-order discipline), one procedure per terminal and per
//! nonterminal, and a syntax tree synthesized alongside the parse tree.
use vstd::prelude::*;
use vstd::string::StrSliceExecFns;
use vstd::string::StringExecFns;
use vstd::string::StringSliceAdditionalSpecFns;
use vstd::utf8::encode_utf8;

use crate::graphviz::GraphVizNode;
use crate::graphviz::NodeV;
use crate::graphviz::ids_consecutive;
use crate::graphviz::ids_consecutive_list;
use crate::graphviz::lemma_list_ids_1;
use crate::graphviz::lemma_list_ids_2;
use crate::graphviz::lemma_list_ids_3;
use crate::graphviz::tree_size;
use crate::graphviz::tree_size_list;
use crate::lexer::lemma_lexer_kinds_in_range;
use crate::lexer::lex_spec;
use crate::lexer::lexemes_match;
use crate::lexer::run_lexer;
use crate::lexer::strs_view;
use crate::text::dec_digits;
use crate::text::to_decimal;

verus! {

/// The terminal alphabet as it appears in syntax trees.
#[allow(non_camel_case_types)]
#[derive(Copy, Clone, Eq, PartialEq, Structural, Debug, Hash)]
pub enum Token_ {
    LeftBracket,
    RightBracket,
    Var,
    And,
    Or,
    Xor,
    Not,
    Eof,
    Eps,
}

/// The nonterminals as they appear in syntax trees.
#[allow(non_camel_case_types)]
#[derive(Copy, Clone, Eq, PartialEq, Structural, Debug, Hash)]
pub enum NotTerminal {
    X,
    X_,
    O,
    O_,
    A,
    A_,
    N,
    T,
}

/// A synthesized syntax tree: a terminal leaf, or a nonterminal with its
/// ordered children.
#[derive(Debug)]
pub enum SyntaxTree {
    Leaf(Token_),
    Tree(NotTerminal, Vec<SyntaxTree>),
}

/// The mathematical view of a syntax tree.
#[verifier::ext_equal]
pub enum STv {
    Leaf(Token_),
    Tree(NotTerminal, Seq<STv>),
}

impl View for SyntaxTree {
    type V = STv;

    closed spec fn view(&self) -> STv {
        st_view(*self)
    }
}

closed spec fn st_view(t: SyntaxTree) -> STv
    decreases t, 0int,
{
    match t {
        SyntaxTree::Leaf(k) => STv::Leaf(k),
        SyntaxTree::Tree(nt, cs) => STv::Tree(nt, st_view_list(cs@, 0)),
    }
}

closed spec fn st_view_list(s: Seq<SyntaxTree>, i: int) -> Seq<STv>
    decreases s, s.len() - i,
{
    if 0 <= i < s.len() {
        seq![st_view(s[i])] + st_view_list(s, i + 1)
    } else {
        Seq::empty()
    }
}

proof fn lemma_st_view_list(s: Seq<SyntaxTree>, i: int)
    requires
        0 <= i <= s.len(),
    ensures
        st_view_list(s, i).len() == s.len() - i,
        forall|j: int|
            0 <= j < s.len() - i ==> #[trigger] st_view_list(s, i)[j] == st_view(s[i + j]),
    decreases s.len() - i,
{
    if i < s.len() {
        lemma_st_view_list(s, i + 1);
    }
}

impl vstd::std_specs::cmp::PartialEqSpecImpl for SyntaxTree {
    open spec fn obeys_eq_spec() -> bool {
        true
    }

    open spec fn eq_spec(&self, other: &SyntaxTree) -> bool {
        self@ == other@
    }
}

fn st_eq(x: &SyntaxTree, y: &SyntaxTree) -> (r: bool)
    ensures
        r == (x@ == y@),
    decreases *x, 0int,
{
    match (x, y) {
        (SyntaxTree::Leaf(a), SyntaxTree::Leaf(b)) => a == b,
        (SyntaxTree::Tree(n1, c1), SyntaxTree::Tree(n2, c2)) => {
            if !(*n1 == *n2) {
                return false;
            }
            if c1.len() != c2.len() {
                proof {
                    lemma_st_view_list(c1@, 0);
                    lemma_st_view_list(c2@, 0);
                }
                return false;
            }
            proof {
                assert(decreases_to!(*x => *c1));
            }
            st_eq_list(c1, c2, 0)
        },
        _ => false,
    }
}

fn st_eq_list(c1: &Vec<SyntaxTree>, c2: &Vec<SyntaxTree>, i: usize) -> (r: bool)
    requires
        i <= c1@.len(),
        c1@.len() == c2@.len(),
    ensures
        r == (st_view_list(c1@, i as int) == st_view_list(c2@, i as int)),
    decreases *c1, c1@.len() - i,
{
    let n = c1.len();
    if i == n {
        proof {
            assert(st_view_list(c1@, i as int) =~= st_view_list(c2@, i as int));
        }
        return true;
    }
    let a = &c1[i];
    let b = &c2[i];
    proof {
        assert(decreases_to!(*c1 => *a));
    }
    let heads = st_eq(a, b);
    if !heads {
        proof {
            assert(st_view_list(c1@, i as int)[0] == st_view(c1@[i as int]));
            assert(st_view_list(c2@, i as int)[0] == st_view(c2@[i as int]));
        }
        return false;
    }
    let tails = st_eq_list(c1, c2, i + 1);
    proof {
        lemma_st_view_list(c1@, i as int);
        lemma_st_view_list(c2@, i as int);
        let a1 = st_view_list(c1@, i as int);
        let a2 = st_view_list(c2@, i as int);
        let t1 = st_view_list(c1@, i + 1);
        let t2 = st_view_list(c2@, i + 1);
        assert(a1 == seq![st_view(c1@[i as int])] + t1);
        assert(a2 == seq![st_view(c2@[i as int])] + t2);
        assert(a1.subrange(1, a1.len() as int) =~= t1);
        assert(a2.subrange(1, a2.len() as int) =~= t2);
        if tails {
            assert(a1 =~= a2);
        } else {
            assert(a1.len() == a2.len());
            assert(a1 != a2) by {
                if a1 == a2 {
                    assert(a1.subrange(1, a1.len() as int) == a2.subrange(1, a2.len() as int));
                    assert(t1 == t2);
                }
            }
        }
    }
    tails
}

impl PartialEq for SyntaxTree {
    /// Deep structural equality: two trees are equal when their views are.
    fn eq(&self, other: &SyntaxTree) -> (r: bool) {
        st_eq(self, other)
    }
}

// ---------------------------------------------------------------------------
// Tokens and the tokenizer.
// ---------------------------------------------------------------------------
/// One lexical token of the logic grammar, carrying its lexeme.
#[derive(Debug)]
pub enum Token {
    Xor(String),
    Or(String),
    And(String),
    Not(String),
    Var(String),
    LB(String),
    RB(String),
    Eof,
}

/// The view of a token: its class and the bytes of its lexeme.
pub enum TokV {
    Xor(Seq<u8>),
    Or(Seq<u8>),
    And(Seq<u8>),
    Not(Seq<u8>),
    Var(Seq<u8>),
    LB(Seq<u8>),
    RB(Seq<u8>),
    Eof,
}

pub open spec fn tok_view(t: Token) -> TokV {
    match t {
        Token::Xor(s) => TokV::Xor(encode_utf8(s@)),
        Token::Or(s) => TokV::Or(encode_utf8(s@)),
        Token::And(s) => TokV::And(encode_utf8(s@)),
        Token::Not(s) => TokV::Not(encode_utf8(s@)),
        Token::Var(s) => TokV::Var(encode_utf8(s@)),
        Token::LB(s) => TokV::LB(encode_utf8(s@)),
        Token::RB(s) => TokV::RB(encode_utf8(s@)),
        Token::Eof => TokV::Eof,
    }
}

pub open spec fn tok_views(ts: Seq<Token>) -> Seq<TokV> {
    ts.map_values(|t: Token| tok_view(t))
}

pub open spec fn kind_tok(k: int, lex: Seq<u8>) -> TokV {
    if k == 0 {
        TokV::Xor(lex)
    } else if k == 1 {
        TokV::Or(lex)
    } else if k == 2 {
        TokV::And(lex)
    } else if k == 3 {
        TokV::Not(lex)
    } else if k == 4 {
        TokV::Var(lex)
    } else if k == 5 {
        TokV::LB(lex)
    } else {
        TokV::RB(lex)
    }
}

/// The token stream of a scan result, with the end-of-input sentinel.
pub open spec fn toks_of_items(items: Seq<(int, int, int)>, hb: Seq<u8>) -> Seq<TokV> {
    items.map_values(|it: (int, int, int)| kind_tok(it.0, hb.subrange(it.1, it.2))) + seq![
        TokV::Eof,
    ]
}

/// A proper token stream: it ends with the one end-of-input sentinel.
pub open spec fn tokens_wf(ts: Seq<Token>) -> bool {
    &&& ts.len() >= 1
    &&& tok_view(ts.last()) is Eof
    &&& forall|i: int| 0 <= i < ts.len() - 1 ==> !(tok_view(#[trigger] ts[i]) is Eof)
}

/// The skip patterns of the logic grammar, in declaration order.
pub open spec fn logic_skip_pats() -> Seq<Seq<char>> {
    seq!["\n"@, "\r"@, " "@]
}

/// The token patterns of the logic grammar, in declaration order: the
/// keywords stand before the one-letter variable class, as the ordering
/// discipline requires.
pub open spec fn logic_token_pats() -> Seq<Seq<char>> {
    seq!["xor"@, "or"@, "and"@, "not"@, "[a-zA-Z]"@, "\\("@, "\\)"@]
}

fn logic_skips() -> (v: Vec<&'static str>)
    ensures
        strs_view(v@) == logic_skip_pats(),
{
    let v = vec!["\n", "\r", " "];
    proof {
        assert(strs_view(v@) =~= logic_skip_pats());
    }
    v
}

fn logic_pats() -> (v: Vec<&'static str>)
    ensures
        strs_view(v@) == logic_token_pats(),
{
    let v = vec!["xor", "or", "and", "not", "[a-zA-Z]", "\\(", "\\)"];
    proof {
        assert(strs_view(v@) =~= logic_token_pats());
    }
    v
}

fn to_token(kind: usize, text: String) -> (t: Token)
    requires
        kind < 7,
    ensures
        tok_view(t) == kind_tok(kind as int, encode_utf8(text@)),
        !(tok_view(t) is Eof),
{
    if kind == 0 {
        Token::Xor(text)
    } else if kind == 1 {
        Token::Or(text)
    } else if kind == 2 {
        Token::And(text)
    } else if kind == 3 {
        Token::Not(text)
    } else if kind == 4 {
        Token::Var(text)
    } else if kind == 5 {
        Token::LB(text)
    } else {
        Token::RB(text)
    }
}

/// A lexical failure or a predictive mismatch, at a position of the input.
#[derive(Debug)]
pub struct ParseError {
    pub position: usize,
    pub message: String,
}

/// The scanner for logic-expression input.
pub struct Tokenizer {
    input: String,
    pointer: usize,
}

impl Tokenizer {
    fn new(input: String) -> (t: Tokenizer)
        ensures
            t.input == input,
            t.pointer == 0,
    {
        Tokenizer { input, pointer: 0 }
    }

    /// One anchored token match at the cursor, in pattern order.
    fn match_token(&mut self) -> (r: Option<Token>)
        requires
            old(self).pointer <= encode_utf8(old(self).input@).len(),
        ensures
            final(self).input == old(self).input,
            match r {
                Some(t) => {
                    &&& crate::lexer::first_token(
                        logic_token_pats(),
                        old(self).input@,
                        old(self).pointer as int,
                        0,
                    ) matches Some((k, e)) && tok_view(t) == kind_tok(
                        k,
                        encode_utf8(old(self).input@).subrange(old(self).pointer as int, e),
                    ) && final(self).pointer == e
                },
                None => crate::lexer::first_token(
                    logic_token_pats(),
                    old(self).input@,
                    old(self).pointer as int,
                    0,
                ) is None && final(self).pointer == old(self).pointer,
            },
    {
        let pats = logic_pats();
        match crate::lexer::token_step(&pats, self.input.as_str(), self.pointer) {
            Some((k, e, text)) => {
                proof {
                    crate::lexer::lemma_first_token_kind(
                        logic_token_pats(),
                        self.input@,
                        self.pointer as int,
                        0,
                    );
                }
                let t = to_token(k, text);
                self.pointer = e;
                Some(t)
            },
            None => None,
        }
    }

    /// Scans the whole input into tokens with the end-of-input sentinel
    /// appended, or reports the first byte offset where no pattern applies.
    pub fn tokenize(input: String) -> (r: Result<Vec<Token>, ParseError>)
        ensures
            match r {
                Ok(toks) => {
                    &&& lex_spec(logic_skip_pats(), logic_token_pats(), input@, 0) is Ok
                    &&& tok_views(toks@) == toks_of_items(
                        lex_spec(logic_skip_pats(), logic_token_pats(), input@, 0)->Ok_0,
                        encode_utf8(input@),
                    )
                    &&& tokens_wf(toks@)
                },
                Err(pe) => lex_spec(logic_skip_pats(), logic_token_pats(), input@, 0) == Err::<
                    Seq<(int, int, int)>,
                    int,
                >(pe.position as int) && pe.message@ == "Expected token"@,
            },
    {
        Tokenizer::new(input).run_tokenizing()
    }

    fn run_tokenizing(&mut self) -> (r: Result<Vec<Token>, ParseError>)
        ensures
            final(self).input == old(self).input,
            match r {
                Ok(toks) => {
                    &&& lex_spec(logic_skip_pats(), logic_token_pats(), old(self).input@, 0) is Ok
                    &&& tok_views(toks@) == toks_of_items(
                        lex_spec(logic_skip_pats(), logic_token_pats(), old(self).input@, 0)->Ok_0,
                        encode_utf8(old(self).input@),
                    )
                    &&& tokens_wf(toks@)
                },
                Err(pe) => lex_spec(logic_skip_pats(), logic_token_pats(), old(self).input@, 0)
                    == Err::<Seq<(int, int, int)>, int>(pe.position as int) && pe.message@
                    == "Expected token"@,
            },
    {
        let skips = logic_skips();
        let pats = logic_pats();
        match run_lexer(self.input.as_str(), &skips, &pats) {
            Ok(lexed) => {
                let ghost items = lex_spec(
                    logic_skip_pats(),
                    logic_token_pats(),
                    self.input@,
                    0,
                )->Ok_0;
                let ghost hb = encode_utf8(self.input@);
                proof {
                    lemma_lexer_kinds_in_range(
                        logic_skip_pats(),
                        logic_token_pats(),
                        self.input@,
                        0,
                    );
                }
                let mut toks: Vec<Token> = Vec::new();
                let nl = lexed.len();
                let mut i: usize = 0;
                while i < nl
                    invariant
                        nl == lexed.len(),
                        i <= nl,
                        items == lex_spec(
                            logic_skip_pats(),
                            logic_token_pats(),
                            self.input@,
                            0,
                        )->Ok_0,
                        lex_spec(logic_skip_pats(), logic_token_pats(), self.input@, 0) is Ok,
                        hb == encode_utf8(self.input@),
                        lexemes_match(lexed@, items, hb),
                        logic_token_pats().len() == 7,
                        forall|j: int| 0 <= j < items.len() ==> 0 <= (#[trigger] items[j]).0 < 7,
                        toks@.len() == i,
                        forall|j: int|
                            0 <= j < i ==> tok_view(#[trigger] toks@[j]) == kind_tok(
                                items[j].0,
                                hb.subrange(items[j].1, items[j].2),
                            ) && !(tok_view(toks@[j]) is Eof),
                    decreases nl - i,
                {
                    let text = lexed[i].text.clone();
                    let kind = lexed[i].kind;
                    proof {
                        assert(lexed@[i as int].kind == items[i as int].0);
                        assert(encode_utf8(lexed@[i as int].text@) == hb.subrange(
                            items[i as int].1,
                            items[i as int].2,
                        ));
                    }
                    let t = to_token(kind, text);
                    toks.push(t);
                    i = i + 1;
                }
                toks.push(Token::Eof);
                proof {
                    assert(tok_views(toks@) =~= toks_of_items(items, hb));
                    assert(tok_view(toks@[toks@.len() - 1]) is Eof);
                }
                self.pointer = self.input.as_str().as_bytes().len();
                Ok(toks)
            },
            Err(p) => {
                self.pointer = p;
                Err(ParseError { position: p, message: String::from_str("Expected token") })
            },
        }
    }
}

// ---------------------------------------------------------------------------
// The predictive parser.
// ---------------------------------------------------------------------------
/// A leaf of the parse tree: the decimal of the counter it was given, its
/// terminal's name, no children.
pub open spec fn leaf_v(c: int, label: Seq<char>) -> NodeV {
    NodeV { id: dec_digits(c as nat), label, circle: false, children: Seq::empty() }
}

/// An interior node of the parse tree.
pub open spec fn node_v(c: int, label: Seq<char>, children: Seq<NodeV>) -> NodeV {
    NodeV { id: dec_digits(c as nat), label, circle: true, children }
}

fn mk_leaf(k: Token_) -> (t: SyntaxTree)
    ensures
        t@ == STv::Leaf(k),
{
    SyntaxTree::Leaf(k)
}

fn mk_tree1(nt: NotTerminal, a: SyntaxTree) -> (t: SyntaxTree)
    ensures
        t@ == STv::Tree(nt, seq![a@]),
{
    let ghost av = a@;
    let mut v: Vec<SyntaxTree> = Vec::new();
    v.push(a);
    proof {
        lemma_st_view_list(v@, 0);
    }
    let t = SyntaxTree::Tree(nt, v);
    proof {
        assert(t@ =~= STv::Tree(nt, seq![av]));
    }
    t
}

fn mk_tree2(nt: NotTerminal, a: SyntaxTree, b: SyntaxTree) -> (t: SyntaxTree)
    ensures
        t@ == STv::Tree(nt, seq![a@, b@]),
{
    let ghost av = a@;
    let ghost bv = b@;
    let mut v: Vec<SyntaxTree> = Vec::new();
    v.push(a);
    v.push(b);
    proof {
        lemma_st_view_list(v@, 0);
        assert(v@.len() == 2);
        assert(st_view_list(v@, 0).len() == 2);
        assert(st_view_list(v@, 0)[0] == st_view(v@[0]));
        assert(st_view_list(v@, 0)[1] == st_view(v@[1]));
        assert(st_view(v@[0]) == av);
        assert(st_view(v@[1]) == bv);
        assert(st_view_list(v@, 0) =~= seq![av, bv]);
    }
    let t = SyntaxTree::Tree(nt, v);
    proof {
        assert(t@ == STv::Tree(nt, st_view_list(v@, 0)));
        assert(t@ =~= STv::Tree(nt, seq![av, bv]));
    }
    t
}

fn mk_tree3(nt: NotTerminal, a: SyntaxTree, b: SyntaxTree, c: SyntaxTree) -> (t: SyntaxTree)
    ensures
        t@ == STv::Tree(nt, seq![a@, b@, c@]),
{
    let ghost av = a@;
    let ghost bv = b@;
    let ghost cv = c@;
    let mut v: Vec<SyntaxTree> = Vec::new();
    v.push(a);
    v.push(b);
    v.push(c);
    proof {
        lemma_st_view_list(v@, 0);
        assert(v@.len() == 3);
        assert(st_view_list(v@, 0).len() == 3);
        assert(st_view_list(v@, 0)[0] == st_view(v@[0]));
        assert(st_view_list(v@, 0)[1] == st_view(v@[1]));
        assert(st_view_list(v@, 0)[2] == st_view(v@[2]));
        assert(st_view(v@[0]) == av);
        assert(st_view(v@[1]) == bv);
        assert(st_view(v@[2]) == cv);
        assert(st_view_list(v@, 0) =~= seq![av, bv, cv]);
    }
    let t = SyntaxTree::Tree(nt, v);
    proof {
        assert(t@ == STv::Tree(nt, st_view_list(v@, 0)));
        assert(t@ =~= STv::Tree(nt, seq![av, bv, cv]));
    }
    t
}

/// The parser state the emitted procedures thread: the token vector, the
/// cursor, and the node counter.
struct Parser {
    tokens: Vec<Token>,
    pointer: usize,
    counter: u128,
}

/// The cursor stands on a token, and the stream is properly terminated.
pub open spec fn parser_wf(tokens: Seq<Token>, pointer: int) -> bool {
    tokens_wf(tokens) && 0 <= pointer < tokens.len()
}

/// Room in the counter for every node the rest of the parse can allocate.
pub open spec fn counter_room(tokens: Seq<Token>, pointer: int, counter: int, k: int) -> bool {
    counter + 14 * (tokens.len() - pointer) + k <= u128::MAX
}

pub open spec fn sp_s(ts: Seq<TokV>, p: int, c: int) -> Result<
    (NodeV, STv, int, int),
    (int, Seq<char>),
>
    decreases ts.len() - p, 8int,
{
    if !(0 <= p < ts.len()) {
        Err((p, "Can't match rule"@))
    } else {
        match ts[p] {
            TokV::Var(_) | TokV::Not(_) | TokV::LB(_) => match sp_x(ts, p, c + 1) {
                Ok((n1, t1, p1, c1)) => Ok((node_v(c, "S"@, seq![n1]), t1, p1, c1)),
                Err(e) => Err(e),
            },
            _ => Err((p, "Can't match rule"@)),
        }
    }
}

pub open spec fn sp_x(ts: Seq<TokV>, p: int, c: int) -> Result<
    (NodeV, STv, int, int),
    (int, Seq<char>),
>
    decreases ts.len() - p, 7int,
{
    if !(0 <= p < ts.len()) {
        Err((p, "Can't match rule"@))
    } else {
        match ts[p] {
            TokV::Var(_) | TokV::Not(_) | TokV::LB(_) => match sp_o(ts, p, c + 1) {
                Ok((n1, t1, p1, c1)) => if p < p1 <= ts.len() {
                    match sp_xx(ts, p1, c1) {
                        Ok((n2, t2, p2, c2)) => Ok(
                            (
                                node_v(c, "X"@, seq![n1, n2]),
                                STv::Tree(NotTerminal::X, seq![t1, t2]),
                                p2,
                                c2,
                            ),
                        ),
                        Err(e) => Err(e),
                    }
                } else {
                    Err((-1, Seq::empty()))
                },
                Err(e) => Err(e),
            },
            _ => Err((p, "Can't match rule"@)),
        }
    }
}

pub open spec fn sp_xx(ts: Seq<TokV>, p: int, c: int) -> Result<
    (NodeV, STv, int, int),
    (int, Seq<char>),
>
    decreases ts.len() - p, 9int,
{
    if !(0 <= p < ts.len()) {
        Err((p, "Can't match rule"@))
    } else {
        match ts[p] {
            TokV::Xor(_) => match sp_o(ts, p + 1, c + 2) {
                Ok((n1, t1, p1, c1)) => if p + 1 < p1 <= ts.len() {
                    match sp_xx(ts, p1, c1) {
                        Ok((n2, t2, p2, c2)) => Ok(
                            (
                                node_v(c, "Xx"@, seq![leaf_v(c + 1, "Xor"@), n1, n2]),
                                STv::Tree(
                                    NotTerminal::X_,
                                    seq![STv::Leaf(Token_::Xor), t1, t2],
                                ),
                                p2,
                                c2,
                            ),
                        ),
                        Err(e) => Err(e),
                    }
                } else {
                    Err((-1, Seq::empty()))
                },
                Err(e) => Err(e),
            },
            TokV::RB(_) | TokV::Eof => Ok(
                (
                    node_v(c, "Xx"@, Seq::empty()),
                    STv::Tree(NotTerminal::X_, seq![STv::Leaf(Token_::Eps)]),
                    p,
                    c + 1,
                ),
            ),
            _ => Err((p, "Can't match rule"@)),
        }
    }
}

pub open spec fn sp_o(ts: Seq<TokV>, p: int, c: int) -> Result<
    (NodeV, STv, int, int),
    (int, Seq<char>),
>
    decreases ts.len() - p, 6int,
{
    if !(0 <= p < ts.len()) {
        Err((p, "Can't match rule"@))
    } else {
        match ts[p] {
            TokV::Var(_) | TokV::Not(_) | TokV::LB(_) => match sp_a(ts, p, c + 1) {
                Ok((n1, t1, p1, c1)) => if p < p1 <= ts.len() {
                    match sp_ox(ts, p1, c1) {
                        Ok((n2, t2, p2, c2)) => Ok(
                            (
                                node_v(c, "O"@, seq![n1, n2]),
                                STv::Tree(NotTerminal::O, seq![t1, t2]),
                                p2,
                                c2,
                            ),
                        ),
                        Err(e) => Err(e),
                    }
                } else {
                    Err((-1, Seq::empty()))
                },
                Err(e) => Err(e),
            },
            _ => Err((p, "Can't match rule"@)),
        }
    }
}

pub open spec fn sp_ox(ts: Seq<TokV>, p: int, c: int) -> Result<
    (NodeV, STv, int, int),
    (int, Seq<char>),
>
    decreases ts.len() - p, 9int,
{
    if !(0 <= p < ts.len()) {
        Err((p, "Can't match rule"@))
    } else {
        match ts[p] {
            TokV::Or(_) => match sp_a(ts, p + 1, c + 2) {
                Ok((n1, t1, p1, c1)) => if p + 1 < p1 <= ts.len() {
                    match sp_ox(ts, p1, c1) {
                        Ok((n2, t2, p2, c2)) => Ok(
                            (
                                node_v(c, "Ox"@, seq![leaf_v(c + 1, "Or"@), n1, n2]),
                                STv::Tree(
                                    NotTerminal::O_,
                                    seq![STv::Leaf(Token_::Or), t1, t2],
                                ),
                                p2,
                                c2,
                            ),
                        ),
                        Err(e) => Err(e),
                    }
                } else {
                    Err((-1, Seq::empty()))
                },
                Err(e) => Err(e),
            },
            TokV::Xor(_) | TokV::Eof | TokV::RB(_) => Ok(
                (
                    node_v(c, "Ox"@, Seq::empty()),
                    STv::Tree(NotTerminal::O_, seq![STv::Leaf(Token_::Eps)]),
                    p,
                    c + 1,
                ),
            ),
            _ => Err((p, "Can't match rule"@)),
        }
    }
}

pub open spec fn sp_a(ts: Seq<TokV>, p: int, c: int) -> Result<
    (NodeV, STv, int, int),
    (int, Seq<char>),
>
    decreases ts.len() - p, 5int,
{
    if !(0 <= p < ts.len()) {
        Err((p, "Can't match rule"@))
    } else {
        match ts[p] {
            TokV::Var(_) | TokV::Not(_) | TokV::LB(_) => match sp_n(ts, p, c + 1) {
                Ok((n1, t1, p1, c1)) => if p < p1 <= ts.len() {
                    match sp_ax(ts, p1, c1) {
                        Ok((n2, t2, p2, c2)) => Ok(
                            (
                                node_v(c, "A"@, seq![n1, n2]),
                                STv::Tree(NotTerminal::A, seq![t1, t2]),
                                p2,
                                c2,
                            ),
                        ),
                        Err(e) => Err(e),
                    }
                } else {
                    Err((-1, Seq::empty()))
                },
                Err(e) => Err(e),
            },
            _ => Err((p, "Can't match rule"@)),
        }
    }
}

pub open spec fn sp_ax(ts: Seq<TokV>, p: int, c: int) -> Result<
    (NodeV, STv, int, int),
    (int, Seq<char>),
>
    decreases ts.len() - p, 9int,
{
    if !(0 <= p < ts.len()) {
        Err((p, "Can't match rule"@))
    } else {
        match ts[p] {
            TokV::And(_) => match sp_n(ts, p + 1, c + 2) {
                Ok((n1, t1, p1, c1)) => if p + 1 < p1 <= ts.len() {
                    match sp_ax(ts, p1, c1) {
                        Ok((n2, t2, p2, c2)) => Ok(
                            (
                                node_v(c, "Ax"@, seq![leaf_v(c + 1, "And"@), n1, n2]),
                                STv::Tree(
                                    NotTerminal::A_,
                                    seq![STv::Leaf(Token_::And), t1, t2],
                                ),
                                p2,
                                c2,
                            ),
                        ),
                        Err(e) => Err(e),
                    }
                } else {
                    Err((-1, Seq::empty()))
                },
                Err(e) => Err(e),
            },
            TokV::Or(_) | TokV::RB(_) | TokV::Xor(_) | TokV::Eof => Ok(
                (
                    node_v(c, "Ax"@, Seq::empty()),
                    STv::Tree(NotTerminal::A_, seq![STv::Leaf(Token_::Eps)]),
                    p,
                    c + 1,
                ),
            ),
            _ => Err((p, "Can't match rule"@)),
        }
    }
}

pub open spec fn sp_n(ts: Seq<TokV>, p: int, c: int) -> Result<
    (NodeV, STv, int, int),
    (int, Seq<char>),
>
    decreases ts.len() - p, 4int,
{
    if !(0 <= p < ts.len()) {
        Err((p, "Can't match rule"@))
    } else {
        match ts[p] {
            TokV::Not(_) => match sp_t(ts, p + 1, c + 2) {
                Ok((n1, t1, p1, c1)) => Ok(
                    (
                        node_v(c, "N"@, seq![leaf_v(c + 1, "Not"@), n1]),
                        STv::Tree(NotTerminal::N, seq![STv::Leaf(Token_::Not), t1]),
                        p1,
                        c1,
                    ),
                ),
                Err(e) => Err(e),
            },
            TokV::LB(_) | TokV::Var(_) => match sp_t(ts, p, c + 1) {
                Ok((n1, t1, p1, c1)) => Ok(
                    (node_v(c, "N"@, seq![n1]), STv::Tree(NotTerminal::N, seq![t1]), p1, c1),
                ),
                Err(e) => Err(e),
            },
            _ => Err((p, "Can't match rule"@)),
        }
    }
}

pub open spec fn sp_t(ts: Seq<TokV>, p: int, c: int) -> Result<
    (NodeV, STv, int, int),
    (int, Seq<char>),
>
    decreases ts.len() - p, 3int,
{
    if !(0 <= p < ts.len()) {
        Err((p, "Can't match rule"@))
    } else {
        match ts[p] {
            TokV::Var(_) => Ok(
                (
                    node_v(c, "T"@, seq![leaf_v(c + 1, "Var"@)]),
                    STv::Tree(NotTerminal::T, seq![STv::Leaf(Token_::Var)]),
                    p + 1,
                    c + 2,
                ),
            ),
            TokV::LB(_) => match sp_x(ts, p + 1, c + 2) {
                Ok((n1, t1, p1, c1)) => if p + 1 < p1 < ts.len() {
                    if ts[p1] is RB {
                        Ok(
                            (
                                node_v(c, "T"@, seq![leaf_v(c + 1, "LB"@), n1, leaf_v(c1, "RB"@)]),
                                STv::Tree(
                                    NotTerminal::T,
                                    seq![
                                        STv::Leaf(Token_::LeftBracket),
                                        t1,
                                        STv::Leaf(Token_::RightBracket),
                                    ],
                                ),
                                p1 + 1,
                                c1 + 1,
                            ),
                        )
                    } else {
                        Err((p1, "Expected RB"@))
                    }
                } else {
                    Err((-1, Seq::empty()))
                },
                Err(e) => Err(e),
            },
            _ => Err((p, "Can't match rule"@)),
        }
    }
}


impl Parser {
    fn new(tokens: Vec<Token>) -> (p: Parser)
        ensures
            p.tokens == tokens,
            p.pointer == 0,
            p.counter == 0,
    {
        Parser { tokens, pointer: 0, counter: 0 }
    }

    #[allow(non_snake_case)]
    fn Xor(&mut self) -> (r: Result<(GraphVizNode, String), ParseError>)
        requires
            parser_wf(old(self).tokens@, old(self).pointer as int),
            old(self).counter < u128::MAX,
        ensures
            final(self).tokens == old(self).tokens,
            match r {
                Ok((node, s)) => {
                    &&& final(self).pointer == old(self).pointer + 1
                    &&& final(self).counter == old(self).counter + 1
                    &&& tok_view(old(self).tokens@[old(self).pointer as int]) is Xor
                    &&& node@ == leaf_v(old(self).counter as int, "Xor"@)
                    &&& parser_wf(final(self).tokens@, final(self).pointer as int)
                },
                Err(pe) => {
                    &&& !(tok_view(old(self).tokens@[old(self).pointer as int]) is Xor)
                    &&& *final(self) == *old(self)
                    &&& pe.position == old(self).pointer
                    &&& pe.message@ == "Expected Xor"@
                },
            },
    {
        let pos = self.pointer;
        let n = self.tokens.len();
        proof {
            assert(pos < n);
        }
        let matched: Option<String> = match &self.tokens[pos] {
            Token::Xor(s) => Some(s.clone()),
            _ => None,
        };
        match matched {
            Some(sc) => {
                let id = to_decimal(self.counter);
                self.pointer = pos + 1;
                self.counter = self.counter + 1;
                let node = GraphVizNode::new_leaf(id, String::from_str("Xor"));
                proof {
                    assert(node@ =~= leaf_v(old(self).counter as int, "Xor"@));
                }
                Ok((node, sc))
            },
            None => Err(ParseError { position: pos, message: String::from_str("Expected Xor") }),
        }
    }

    #[allow(non_snake_case)]
    fn LB(&mut self) -> (r: Result<(GraphVizNode, String), ParseError>)
        requires
            parser_wf(old(self).tokens@, old(self).pointer as int),
            old(self).counter < u128::MAX,
        ensures
            final(self).tokens == old(self).tokens,
            match r {
                Ok((node, s)) => {
                    &&& final(self).pointer == old(self).pointer + 1
                    &&& final(self).counter == old(self).counter + 1
                    &&& tok_view(old(self).tokens@[old(self).pointer as int]) is LB
                    &&& node@ == leaf_v(old(self).counter as int, "LB"@)
                    &&& parser_wf(final(self).tokens@, final(self).pointer as int)
                },
                Err(pe) => {
                    &&& !(tok_view(old(self).tokens@[old(self).pointer as int]) is LB)
                    &&& *final(self) == *old(self)
                    &&& pe.position == old(self).pointer
                    &&& pe.message@ == "Expected LB"@
                },
            },
    {
        let pos = self.pointer;
        let n = self.tokens.len();
        proof {
            assert(pos < n);
        }
        let matched: Option<String> = match &self.tokens[pos] {
            Token::LB(s) => Some(s.clone()),
            _ => None,
        };
        match matched {
            Some(sc) => {
                let id = to_decimal(self.counter);
                self.pointer = pos + 1;
                self.counter = self.counter + 1;
                let node = GraphVizNode::new_leaf(id, String::from_str("LB"));
                proof {
                    assert(node@ =~= leaf_v(old(self).counter as int, "LB"@));
                }
                Ok((node, sc))
            },
            None => Err(ParseError { position: pos, message: String::from_str("Expected LB") }),
        }
    }

    #[allow(non_snake_case)]
    fn Or(&mut self) -> (r: Result<(GraphVizNode, String), ParseError>)
        requires
            parser_wf(old(self).tokens@, old(self).pointer as int),
            old(self).counter < u128::MAX,
        ensures
            final(self).tokens == old(self).tokens,
            match r {
                Ok((node, s)) => {
                    &&& final(self).pointer == old(self).pointer + 1
                    &&& final(self).counter == old(self).counter + 1
                    &&& tok_view(old(self).tokens@[old(self).pointer as int]) is Or
                    &&& node@ == leaf_v(old(self).counter as int, "Or"@)
                    &&& parser_wf(final(self).tokens@, final(self).pointer as int)
                },
                Err(pe) => {
                    &&& !(tok_view(old(self).tokens@[old(self).pointer as int]) is Or)
                    &&& *final(self) == *old(self)
                    &&& pe.position == old(self).pointer
                    &&& pe.message@ == "Expected Or"@
                },
            },
    {
        let pos = self.pointer;
        let n = self.tokens.len();
        proof {
            assert(pos < n);
        }
        let matched: Option<String> = match &self.tokens[pos] {
            Token::Or(s) => Some(s.clone()),
            _ => None,
        };
        match matched {
            Some(sc) => {
                let id = to_decimal(self.counter);
                self.pointer = pos + 1;
                self.counter = self.counter + 1;
                let node = GraphVizNode::new_leaf(id, String::from_str("Or"));
                proof {
                    assert(node@ =~= leaf_v(old(self).counter as int, "Or"@));
                }
                Ok((node, sc))
            },
            None => Err(ParseError { position: pos, message: String::from_str("Expected Or") }),
        }
    }

    #[allow(non_snake_case)]
    fn And(&mut self) -> (r: Result<(GraphVizNode, String), ParseError>)
        requires
            parser_wf(old(self).tokens@, old(self).pointer as int),
            old(self).counter < u128::MAX,
        ensures
            final(self).tokens == old(self).tokens,
            match r {
                Ok((node, s)) => {
                    &&& final(self).pointer == old(self).pointer + 1
                    &&& final(self).counter == old(self).counter + 1
                    &&& tok_view(old(self).tokens@[old(self).pointer as int]) is And
                    &&& node@ == leaf_v(old(self).counter as int, "And"@)
                    &&& parser_wf(final(self).tokens@, final(self).pointer as int)
                },
                Err(pe) => {
                    &&& !(tok_view(old(self).tokens@[old(self).pointer as int]) is And)
                    &&& *final(self) == *old(self)
                    &&& pe.position == old(self).pointer
                    &&& pe.message@ == "Expected And"@
                },
            },
    {
        let pos = self.pointer;
        let n = self.tokens.len();
        proof {
            assert(pos < n);
        }
        let matched: Option<String> = match &self.tokens[pos] {
            Token::And(s) => Some(s.clone()),
            _ => None,
        };
        match matched {
            Some(sc) => {
                let id = to_decimal(self.counter);
                self.pointer = pos + 1;
                self.counter = self.counter + 1;
                let node = GraphVizNode::new_leaf(id, String::from_str("And"));
                proof {
                    assert(node@ =~= leaf_v(old(self).counter as int, "And"@));
                }
                Ok((node, sc))
            },
            None => Err(ParseError { position: pos, message: String::from_str("Expected And") }),
        }
    }

    #[allow(non_snake_case)]
    fn RB(&mut self) -> (r: Result<(GraphVizNode, String), ParseError>)
        requires
            parser_wf(old(self).tokens@, old(self).pointer as int),
            old(self).counter < u128::MAX,
        ensures
            final(self).tokens == old(self).tokens,
            match r {
                Ok((node, s)) => {
                    &&& final(self).pointer == old(self).pointer + 1
                    &&& final(self).counter == old(self).counter + 1
                    &&& tok_view(old(self).tokens@[old(self).pointer as int]) is RB
                    &&& node@ == leaf_v(old(self).counter as int, "RB"@)
                    &&& parser_wf(final(self).tokens@, final(self).pointer as int)
                },
                Err(pe) => {
                    &&& !(tok_view(old(self).tokens@[old(self).pointer as int]) is RB)
                    &&& *final(self) == *old(self)
                    &&& pe.position == old(self).pointer
                    &&& pe.message@ == "Expected RB"@
                },
            },
    {
        let pos = self.pointer;
        let n = self.tokens.len();
        proof {
            assert(pos < n);
        }
        let matched: Option<String> = match &self.tokens[pos] {
            Token::RB(s) => Some(s.clone()),
            _ => None,
        };
        match matched {
            Some(sc) => {
                let id = to_decimal(self.counter);
                self.pointer = pos + 1;
                self.counter = self.counter + 1;
                let node = GraphVizNode::new_leaf(id, String::from_str("RB"));
                proof {
                    assert(node@ =~= leaf_v(old(self).counter as int, "RB"@));
                }
                Ok((node, sc))
            },
            None => Err(ParseError { position: pos, message: String::from_str("Expected RB") }),
        }
    }

    #[allow(non_snake_case)]
    fn Var(&mut self) -> (r: Result<(GraphVizNode, String), ParseError>)
        requires
            parser_wf(old(self).tokens@, old(self).pointer as int),
            old(self).counter < u128::MAX,
        ensures
            final(self).tokens == old(self).tokens,
            match r {
                Ok((node, s)) => {
                    &&& final(self).pointer == old(self).pointer + 1
                    &&& final(self).counter == old(self).counter + 1
                    &&& tok_view(old(self).tokens@[old(self).pointer as int]) is Var
                    &&& node@ == leaf_v(old(self).counter as int, "Var"@)
                    &&& parser_wf(final(self).tokens@, final(self).pointer as int)
                },
                Err(pe) => {
                    &&& !(tok_view(old(self).tokens@[old(self).pointer as int]) is Var)
                    &&& *final(self) == *old(self)
                    &&& pe.position == old(self).pointer
                    &&& pe.message@ == "Expected Var"@
                },
            },
    {
        let pos = self.pointer;
        let n = self.tokens.len();
        proof {
            assert(pos < n);
        }
        let matched: Option<String> = match &self.tokens[pos] {
            Token::Var(s) => Some(s.clone()),
            _ => None,
        };
        match matched {
            Some(sc) => {
                let id = to_decimal(self.counter);
                self.pointer = pos + 1;
                self.counter = self.counter + 1;
                let node = GraphVizNode::new_leaf(id, String::from_str("Var"));
                proof {
                    assert(node@ =~= leaf_v(old(self).counter as int, "Var"@));
                }
                Ok((node, sc))
            },
            None => Err(ParseError { position: pos, message: String::from_str("Expected Var") }),
        }
    }

    #[allow(non_snake_case)]
    fn Not(&mut self) -> (r: Result<(GraphVizNode, String), ParseError>)
        requires
            parser_wf(old(self).tokens@, old(self).pointer as int),
            old(self).counter < u128::MAX,
        ensures
            final(self).tokens == old(self).tokens,
            match r {
                Ok((node, s)) => {
                    &&& final(self).pointer == old(self).pointer + 1
                    &&& final(self).counter == old(self).counter + 1
                    &&& tok_view(old(self).tokens@[old(self).pointer as int]) is Not
                    &&& node@ == leaf_v(old(self).counter as int, "Not"@)
                    &&& parser_wf(final(self).tokens@, final(self).pointer as int)
                },
                Err(pe) => {
                    &&& !(tok_view(old(self).tokens@[old(self).pointer as int]) is Not)
                    &&& *final(self) == *old(self)
                    &&& pe.position == old(self).pointer
                    &&& pe.message@ == "Expected Not"@
                },
            },
    {
        let pos = self.pointer;
        let n = self.tokens.len();
        proof {
            assert(pos < n);
        }
        let matched: Option<String> = match &self.tokens[pos] {
            Token::Not(s) => Some(s.clone()),
            _ => None,
        };
        match matched {
            Some(sc) => {
                let id = to_decimal(self.counter);
                self.pointer = pos + 1;
                self.counter = self.counter + 1;
                let node = GraphVizNode::new_leaf(id, String::from_str("Not"));
                proof {
                    assert(node@ =~= leaf_v(old(self).counter as int, "Not"@));
                }
                Ok((node, sc))
            },
            None => Err(ParseError { position: pos, message: String::from_str("Expected Not") }),
        }
    }

    #[allow(non_snake_case)]
    fn Eof(&mut self) -> (r: Result<(String, GraphVizNode), ParseError>)
        requires
            parser_wf(old(self).tokens@, old(self).pointer as int),
            old(self).counter < u128::MAX,
        ensures
            final(self).tokens == old(self).tokens,
            match r {
                Ok((s, node)) => {
                    &&& final(self).pointer == old(self).pointer + 1
                    &&& final(self).counter == old(self).counter + 1
                    &&& tok_view(old(self).tokens@[old(self).pointer as int]) is Eof
                    &&& s@ == "Eof"@
                    &&& node@ == leaf_v(old(self).counter as int, "Eof"@)
                },
                Err(pe) => {
                    &&& !(tok_view(old(self).tokens@[old(self).pointer as int]) is Eof)
                    &&& *final(self) == *old(self)
                    &&& pe.position == old(self).pointer
                    &&& pe.message@ == "Expected eof"@
                },
            },
    {
        let pos = self.pointer;
        let n = self.tokens.len();
        proof {
            assert(pos < n);
        }
        let at_end = match &self.tokens[pos] {
            Token::Eof => true,
            _ => false,
        };
        if at_end {
            let id = to_decimal(self.counter);
            self.pointer = pos + 1;
            self.counter = self.counter + 1;
            let node = GraphVizNode::new_leaf(id, String::from_str("Eof"));
            proof {
                assert(node@ =~= leaf_v(old(self).counter as int, "Eof"@));
            }
            Ok((String::from_str("Eof"), node))
        } else {
            Err(ParseError { position: pos, message: String::from_str("Expected eof") })
        }
    }

    #[allow(non_snake_case)]
    #[verifier::rlimit(50)]
    fn S(&mut self) -> (r: Result<(GraphVizNode, SyntaxTree), ParseError>)
        requires
            parser_wf(old(self).tokens@, old(self).pointer as int),
            counter_room(old(self).tokens@, old(self).pointer as int, old(self).counter as int, 10),
        ensures
            final(self).tokens == old(self).tokens,
            match r {
                Ok((node, tree)) => {
                    &&& sp_s(
                        tok_views(old(self).tokens@),
                        old(self).pointer as int,
                        old(self).counter as int,
                    ) == Ok::<(NodeV, STv, int, int), (int, Seq<char>)>(
                        (node@, tree@, final(self).pointer as int, final(self).counter as int),
                    )
                    &&& old(self).pointer < final(self).pointer
                    &&& parser_wf(final(self).tokens@, final(self).pointer as int)
                    &&& final(self).counter <= old(self).counter + 14 * (final(self).pointer
                        - old(self).pointer) + 10
                },
                Err(pe) => sp_s(
                    tok_views(old(self).tokens@),
                    old(self).pointer as int,
                    old(self).counter as int,
                ) == Err::<(NodeV, STv, int, int), (int, Seq<char>)>(
                    (pe.position as int, pe.message@),
                ),
            },
        decreases old(self).tokens@.len() - old(self).pointer, 8int,
    {
        let ghost ts = tok_views(old(self).tokens@);
        let ghost p0 = old(self).pointer as int;
        let ghost c0 = old(self).counter as int;
        proof {
            assert(ts[p0] == tok_view(old(self).tokens@[p0]));
        }
        let id = to_decimal(self.counter);
        let mut children: Vec<GraphVizNode> = Vec::new();
        self.counter = self.counter + 1;
        let sel = match &self.tokens[self.pointer] {
            Token::Var(_) | Token::Not(_) | Token::LB(_) => true,
            _ => false,
        };
        if !sel {
            return Err(
                ParseError { position: self.pointer, message: String::from_str("Can't match rule") },
            );
        }
        let (child, tree) = self.X()?;
        let ghost chv = child@;
        children.push(child);
        let node = GraphVizNode::new_node(id, String::from_str("S"), children);
        proof {
            assert(node@.children =~= seq![chv]);
            assert(node@ =~= node_v(c0, "S"@, seq![chv]));
        }
        Ok((node, tree))
    }

    #[allow(non_snake_case)]
    #[verifier::rlimit(50)]
    fn X(&mut self) -> (r: Result<(GraphVizNode, SyntaxTree), ParseError>)
        requires
            parser_wf(old(self).tokens@, old(self).pointer as int),
            counter_room(old(self).tokens@, old(self).pointer as int, old(self).counter as int, 9),
        ensures
            final(self).tokens == old(self).tokens,
            match r {
                Ok((node, tree)) => {
                    &&& sp_x(
                        tok_views(old(self).tokens@),
                        old(self).pointer as int,
                        old(self).counter as int,
                    ) == Ok::<(NodeV, STv, int, int), (int, Seq<char>)>(
                        (node@, tree@, final(self).pointer as int, final(self).counter as int),
                    )
                    &&& old(self).pointer < final(self).pointer
                    &&& parser_wf(final(self).tokens@, final(self).pointer as int)
                    &&& final(self).counter <= old(self).counter + 14 * (final(self).pointer
                        - old(self).pointer) + 9
                },
                Err(pe) => sp_x(
                    tok_views(old(self).tokens@),
                    old(self).pointer as int,
                    old(self).counter as int,
                ) == Err::<(NodeV, STv, int, int), (int, Seq<char>)>(
                    (pe.position as int, pe.message@),
                ),
            },
        decreases old(self).tokens@.len() - old(self).pointer, 7int,
    {
        let ghost ts = tok_views(old(self).tokens@);
        let ghost p0 = old(self).pointer as int;
        let ghost c0 = old(self).counter as int;
        proof {
            assert(ts[p0] == tok_view(old(self).tokens@[p0]));
        }
        let id = to_decimal(self.counter);
        let mut children: Vec<GraphVizNode> = Vec::new();
        self.counter = self.counter + 1;
        let sel = match &self.tokens[self.pointer] {
            Token::Not(_) | Token::Var(_) | Token::LB(_) => true,
            _ => false,
        };
        if !sel {
            return Err(
                ParseError { position: self.pointer, message: String::from_str("Can't match rule") },
            );
        }
        let (child1, t1) = self.O()?;
        let ghost ch1 = child1@;
        let ghost tv1 = t1@;
        children.push(child1);
        let (child2, t2) = self.Xx()?;
        let ghost ch2 = child2@;
        let ghost tv2 = t2@;
        children.push(child2);
        let tree = mk_tree2(NotTerminal::X, t1, t2);
        let node = GraphVizNode::new_node(id, String::from_str("X"), children);
        proof {
            assert(node@.children =~= seq![ch1, ch2]);
            assert(node@ =~= node_v(c0, "X"@, seq![ch1, ch2]));
        }
        Ok((node, tree))
    }

    #[allow(non_snake_case)]
    #[verifier::rlimit(50)]
    fn Xx(&mut self) -> (r: Result<(GraphVizNode, SyntaxTree), ParseError>)
        requires
            parser_wf(old(self).tokens@, old(self).pointer as int),
            counter_room(old(self).tokens@, old(self).pointer as int, old(self).counter as int, 1),
        ensures
            final(self).tokens == old(self).tokens,
            match r {
                Ok((node, tree)) => {
                    &&& sp_xx(
                        tok_views(old(self).tokens@),
                        old(self).pointer as int,
                        old(self).counter as int,
                    ) == Ok::<(NodeV, STv, int, int), (int, Seq<char>)>(
                        (node@, tree@, final(self).pointer as int, final(self).counter as int),
                    )
                    &&& old(self).pointer <= final(self).pointer
                    &&& parser_wf(final(self).tokens@, final(self).pointer as int)
                    &&& final(self).counter <= old(self).counter + 14 * (final(self).pointer
                        - old(self).pointer) + 1
                },
                Err(pe) => sp_xx(
                    tok_views(old(self).tokens@),
                    old(self).pointer as int,
                    old(self).counter as int,
                ) == Err::<(NodeV, STv, int, int), (int, Seq<char>)>(
                    (pe.position as int, pe.message@),
                ),
            },
        decreases old(self).tokens@.len() - old(self).pointer, 9int,
    {
        let ghost ts = tok_views(old(self).tokens@);
        let ghost p0 = old(self).pointer as int;
        let ghost c0 = old(self).counter as int;
        proof {
            assert(ts[p0] == tok_view(old(self).tokens@[p0]));
        }
        let id = to_decimal(self.counter);
        let mut children: Vec<GraphVizNode> = Vec::new();
        self.counter = self.counter + 1;
        let sel: u8 = match &self.tokens[self.pointer] {
            Token::Xor(_) => 1,
            Token::RB(_) | Token::Eof => 2,
            _ => 0,
        };
        if sel == 1 {
            let (child0, _ident) = self.Xor()?;
            let ghost ch0 = child0@;
            children.push(child0);
            let (child1, t1) = self.O()?;
            let ghost ch1 = child1@;
            let ghost tv1 = t1@;
            children.push(child1);
            let (child2, t2) = self.Xx()?;
            let ghost ch2 = child2@;
            let ghost tv2 = t2@;
            children.push(child2);
            let tree = mk_tree3(NotTerminal::X_, mk_leaf(Token_::Xor), t1, t2);
            let node = GraphVizNode::new_node(id, String::from_str("Xx"), children);
            proof {
                assert(node@.children =~= seq![ch0, ch1, ch2]);
                assert(node@ =~= node_v(c0, "Xx"@, seq![leaf_v(c0 + 1, "Xor"@), ch1, ch2]));
            }
            Ok((node, tree))
        } else if sel == 2 {
            let tree = mk_tree1(NotTerminal::X_, mk_leaf(Token_::Eps));
            let node = GraphVizNode::new_node(id, String::from_str("Xx"), children);
            proof {
                assert(node@.children =~= Seq::<NodeV>::empty());
                assert(node@ =~= node_v(c0, "Xx"@, Seq::empty()));
            }
            Ok((node, tree))
        } else {
            Err(ParseError { position: self.pointer, message: String::from_str("Can't match rule") })
        }
    }

    #[allow(non_snake_case)]
    #[verifier::rlimit(50)]
    fn O(&mut self) -> (r: Result<(GraphVizNode, SyntaxTree), ParseError>)
        requires
            parser_wf(old(self).tokens@, old(self).pointer as int),
            counter_room(old(self).tokens@, old(self).pointer as int, old(self).counter as int, 7),
        ensures
            final(self).tokens == old(self).tokens,
            match r {
                Ok((node, tree)) => {
                    &&& sp_o(
                        tok_views(old(self).tokens@),
                        old(self).pointer as int,
                        old(self).counter as int,
                    ) == Ok::<(NodeV, STv, int, int), (int, Seq<char>)>(
                        (node@, tree@, final(self).pointer as int, final(self).counter as int),
                    )
                    &&& old(self).pointer < final(self).pointer
                    &&& parser_wf(final(self).tokens@, final(self).pointer as int)
                    &&& final(self).counter <= old(self).counter + 14 * (final(self).pointer
                        - old(self).pointer) + 7
                },
                Err(pe) => sp_o(
                    tok_views(old(self).tokens@),
                    old(self).pointer as int,
                    old(self).counter as int,
                ) == Err::<(NodeV, STv, int, int), (int, Seq<char>)>(
                    (pe.position as int, pe.message@),
                ),
            },
        decreases old(self).tokens@.len() - old(self).pointer, 6int,
    {
        let ghost ts = tok_views(old(self).tokens@);
        let ghost p0 = old(self).pointer as int;
        let ghost c0 = old(self).counter as int;
        proof {
            assert(ts[p0] == tok_view(old(self).tokens@[p0]));
        }
        let id = to_decimal(self.counter);
        let mut children: Vec<GraphVizNode> = Vec::new();
        self.counter = self.counter + 1;
        let sel = match &self.tokens[self.pointer] {
            Token::Var(_) | Token::LB(_) | Token::Not(_) => true,
            _ => false,
        };
        if !sel {
            return Err(
                ParseError { position: self.pointer, message: String::from_str("Can't match rule") },
            );
        }
        let (child1, t1) = self.A()?;
        let ghost ch1 = child1@;
        let ghost tv1 = t1@;
        children.push(child1);
        let (child2, t2) = self.Ox()?;
        let ghost ch2 = child2@;
        let ghost tv2 = t2@;
        children.push(child2);
        let tree = mk_tree2(NotTerminal::O, t1, t2);
        let node = GraphVizNode::new_node(id, String::from_str("O"), children);
        proof {
            assert(node@.children =~= seq![ch1, ch2]);
            assert(node@ =~= node_v(c0, "O"@, seq![ch1, ch2]));
        }
        Ok((node, tree))
    }

    #[allow(non_snake_case)]
    #[verifier::rlimit(50)]
    fn Ox(&mut self) -> (r: Result<(GraphVizNode, SyntaxTree), ParseError>)
        requires
            parser_wf(old(self).tokens@, old(self).pointer as int),
            counter_room(old(self).tokens@, old(self).pointer as int, old(self).counter as int, 1),
        ensures
            final(self).tokens == old(self).tokens,
            match r {
                Ok((node, tree)) => {
                    &&& sp_ox(
                        tok_views(old(self).tokens@),
                        old(self).pointer as int,
                        old(self).counter as int,
                    ) == Ok::<(NodeV, STv, int, int), (int, Seq<char>)>(
                        (node@, tree@, final(self).pointer as int, final(self).counter as int),
                    )
                    &&& old(self).pointer <= final(self).pointer
                    &&& parser_wf(final(self).tokens@, final(self).pointer as int)
                    &&& final(self).counter <= old(self).counter + 14 * (final(self).pointer
                        - old(self).pointer) + 1
                },
                Err(pe) => sp_ox(
                    tok_views(old(self).tokens@),
                    old(self).pointer as int,
                    old(self).counter as int,
                ) == Err::<(NodeV, STv, int, int), (int, Seq<char>)>(
                    (pe.position as int, pe.message@),
                ),
            },
        decreases old(self).tokens@.len() - old(self).pointer, 9int,
    {
        let ghost ts = tok_views(old(self).tokens@);
        let ghost p0 = old(self).pointer as int;
        let ghost c0 = old(self).counter as int;
        proof {
            assert(ts[p0] == tok_view(old(self).tokens@[p0]));
        }
        let id = to_decimal(self.counter);
        let mut children: Vec<GraphVizNode> = Vec::new();
        self.counter = self.counter + 1;
        let sel: u8 = match &self.tokens[self.pointer] {
            Token::Or(_) => 1,
            Token::Xor(_) | Token::Eof | Token::RB(_) => 2,
            _ => 0,
        };
        if sel == 1 {
            let (child0, _ident) = self.Or()?;
            let ghost ch0 = child0@;
            children.push(child0);
            let (child1, t1) = self.A()?;
            let ghost ch1 = child1@;
            let ghost tv1 = t1@;
            children.push(child1);
            let (child2, t2) = self.Ox()?;
            let ghost ch2 = child2@;
            let ghost tv2 = t2@;
            children.push(child2);
            let tree = mk_tree3(NotTerminal::O_, mk_leaf(Token_::Or), t1, t2);
            let node = GraphVizNode::new_node(id, String::from_str("Ox"), children);
            proof {
                assert(node@.children =~= seq![ch0, ch1, ch2]);
                assert(node@ =~= node_v(c0, "Ox"@, seq![leaf_v(c0 + 1, "Or"@), ch1, ch2]));
            }
            Ok((node, tree))
        } else if sel == 2 {
            let tree = mk_tree1(NotTerminal::O_, mk_leaf(Token_::Eps));
            let node = GraphVizNode::new_node(id, String::from_str("Ox"), children);
            proof {
                assert(node@.children =~= Seq::<NodeV>::empty());
                assert(node@ =~= node_v(c0, "Ox"@, Seq::empty()));
            }
            Ok((node, tree))
        } else {
            Err(ParseError { position: self.pointer, message: String::from_str("Can't match rule") })
        }
    }

    #[allow(non_snake_case)]
    #[verifier::rlimit(50)]
    fn A(&mut self) -> (r: Result<(GraphVizNode, SyntaxTree), ParseError>)
        requires
            parser_wf(old(self).tokens@, old(self).pointer as int),
            counter_room(old(self).tokens@, old(self).pointer as int, old(self).counter as int, 5),
        ensures
            final(self).tokens == old(self).tokens,
            match r {
                Ok((node, tree)) => {
                    &&& sp_a(
                        tok_views(old(self).tokens@),
                        old(self).pointer as int,
                        old(self).counter as int,
                    ) == Ok::<(NodeV, STv, int, int), (int, Seq<char>)>(
                        (node@, tree@, final(self).pointer as int, final(self).counter as int),
                    )
                    &&& old(self).pointer < final(self).pointer
                    &&& parser_wf(final(self).tokens@, final(self).pointer as int)
                    &&& final(self).counter <= old(self).counter + 14 * (final(self).pointer
                        - old(self).pointer) + 5
                },
                Err(pe) => sp_a(
                    tok_views(old(self).tokens@),
                    old(self).pointer as int,
                    old(self).counter as int,
                ) == Err::<(NodeV, STv, int, int), (int, Seq<char>)>(
                    (pe.position as int, pe.message@),
                ),
            },
        decreases old(self).tokens@.len() - old(self).pointer, 5int,
    {
        let ghost ts = tok_views(old(self).tokens@);
        let ghost p0 = old(self).pointer as int;
        let ghost c0 = old(self).counter as int;
        proof {
            assert(ts[p0] == tok_view(old(self).tokens@[p0]));
        }
        let id = to_decimal(self.counter);
        let mut children: Vec<GraphVizNode> = Vec::new();
        self.counter = self.counter + 1;
        let sel = match &self.tokens[self.pointer] {
            Token::Var(_) | Token::LB(_) | Token::Not(_) => true,
            _ => false,
        };
        if !sel {
            return Err(
                ParseError { position: self.pointer, message: String::from_str("Can't match rule") },
            );
        }
        let (child1, t1) = self.N()?;
        let ghost ch1 = child1@;
        let ghost tv1 = t1@;
        children.push(child1);
        let (child2, t2) = self.Ax()?;
        let ghost ch2 = child2@;
        let ghost tv2 = t2@;
        children.push(child2);
        let tree = mk_tree2(NotTerminal::A, t1, t2);
        let node = GraphVizNode::new_node(id, String::from_str("A"), children);
        proof {
            assert(node@.children =~= seq![ch1, ch2]);
            assert(node@ =~= node_v(c0, "A"@, seq![ch1, ch2]));
        }
        Ok((node, tree))
    }

    #[allow(non_snake_case)]
    #[verifier::rlimit(50)]
    fn Ax(&mut self) -> (r: Result<(GraphVizNode, SyntaxTree), ParseError>)
        requires
            parser_wf(old(self).tokens@, old(self).pointer as int),
            counter_room(old(self).tokens@, old(self).pointer as int, old(self).counter as int, 1),
        ensures
            final(self).tokens == old(self).tokens,
            match r {
                Ok((node, tree)) => {
                    &&& sp_ax(
                        tok_views(old(self).tokens@),
                        old(self).pointer as int,
                        old(self).counter as int,
                    ) == Ok::<(NodeV, STv, int, int), (int, Seq<char>)>(
                        (node@, tree@, final(self).pointer as int, final(self).counter as int),
                    )
                    &&& old(self).pointer <= final(self).pointer
                    &&& parser_wf(final(self).tokens@, final(self).pointer as int)
                    &&& final(self).counter <= old(self).counter + 14 * (final(self).pointer
                        - old(self).pointer) + 1
                },
                Err(pe) => sp_ax(
                    tok_views(old(self).tokens@),
                    old(self).pointer as int,
                    old(self).counter as int,
                ) == Err::<(NodeV, STv, int, int), (int, Seq<char>)>(
                    (pe.position as int, pe.message@),
                ),
            },
        decreases old(self).tokens@.len() - old(self).pointer, 9int,
    {
        let ghost ts = tok_views(old(self).tokens@);
        let ghost p0 = old(self).pointer as int;
        let ghost c0 = old(self).counter as int;
        proof {
            assert(ts[p0] == tok_view(old(self).tokens@[p0]));
        }
        let id = to_decimal(self.counter);
        let mut children: Vec<GraphVizNode> = Vec::new();
        self.counter = self.counter + 1;
        let sel: u8 = match &self.tokens[self.pointer] {
            Token::And(_) => 1,
            Token::Or(_) | Token::RB(_) | Token::Xor(_) | Token::Eof => 2,
            _ => 0,
        };
        if sel == 1 {
            let (child0, _ident) = self.And()?;
            let ghost ch0 = child0@;
            children.push(child0);
            let (child1, t1) = self.N()?;
            let ghost ch1 = child1@;
            let ghost tv1 = t1@;
            children.push(child1);
            let (child2, t2) = self.Ax()?;
            let ghost ch2 = child2@;
            let ghost tv2 = t2@;
            children.push(child2);
            let tree = mk_tree3(NotTerminal::A_, mk_leaf(Token_::And), t1, t2);
            let node = GraphVizNode::new_node(id, String::from_str("Ax"), children);
            proof {
                assert(node@.children =~= seq![ch0, ch1, ch2]);
                assert(node@ =~= node_v(c0, "Ax"@, seq![leaf_v(c0 + 1, "And"@), ch1, ch2]));
            }
            Ok((node, tree))
        } else if sel == 2 {
            let tree = mk_tree1(NotTerminal::A_, mk_leaf(Token_::Eps));
            let node = GraphVizNode::new_node(id, String::from_str("Ax"), children);
            proof {
                assert(node@.children =~= Seq::<NodeV>::empty());
                assert(node@ =~= node_v(c0, "Ax"@, Seq::empty()));
            }
            Ok((node, tree))
        } else {
            Err(ParseError { position: self.pointer, message: String::from_str("Can't match rule") })
        }
    }

    #[allow(non_snake_case)]
    #[verifier::rlimit(50)]
    fn N(&mut self) -> (r: Result<(GraphVizNode, SyntaxTree), ParseError>)
        requires
            parser_wf(old(self).tokens@, old(self).pointer as int),
            counter_room(old(self).tokens@, old(self).pointer as int, old(self).counter as int, 3),
        ensures
            final(self).tokens == old(self).tokens,
            match r {
                Ok((node, tree)) => {
                    &&& sp_n(
                        tok_views(old(self).tokens@),
                        old(self).pointer as int,
                        old(self).counter as int,
                    ) == Ok::<(NodeV, STv, int, int), (int, Seq<char>)>(
                        (node@, tree@, final(self).pointer as int, final(self).counter as int),
                    )
                    &&& old(self).pointer < final(self).pointer
                    &&& parser_wf(final(self).tokens@, final(self).pointer as int)
                    &&& final(self).counter <= old(self).counter + 14 * (final(self).pointer
                        - old(self).pointer) + 3
                },
                Err(pe) => sp_n(
                    tok_views(old(self).tokens@),
                    old(self).pointer as int,
                    old(self).counter as int,
                ) == Err::<(NodeV, STv, int, int), (int, Seq<char>)>(
                    (pe.position as int, pe.message@),
                ),
            },
        decreases old(self).tokens@.len() - old(self).pointer, 4int,
    {
        let ghost ts = tok_views(old(self).tokens@);
        let ghost p0 = old(self).pointer as int;
        let ghost c0 = old(self).counter as int;
        proof {
            assert(ts[p0] == tok_view(old(self).tokens@[p0]));
        }
        let id = to_decimal(self.counter);
        let mut children: Vec<GraphVizNode> = Vec::new();
        self.counter = self.counter + 1;
        let sel: u8 = match &self.tokens[self.pointer] {
            Token::Not(_) => 1,
            Token::LB(_) | Token::Var(_) => 2,
            _ => 0,
        };
        if sel == 1 {
            let (child0, _ident) = self.Not()?;
            let ghost ch0 = child0@;
            children.push(child0);
            let (child1, t1) = self.T()?;
            let ghost ch1 = child1@;
            let ghost tv1 = t1@;
            children.push(child1);
            let tree = mk_tree2(NotTerminal::N, mk_leaf(Token_::Not), t1);
            let node = GraphVizNode::new_node(id, String::from_str("N"), children);
            proof {
                assert(node@.children =~= seq![ch0, ch1]);
                assert(node@ =~= node_v(c0, "N"@, seq![leaf_v(c0 + 1, "Not"@), ch1]));
            }
            Ok((node, tree))
        } else if sel == 2 {
            let (child1, t1) = self.T()?;
            let ghost ch1 = child1@;
            let ghost tv1 = t1@;
            children.push(child1);
            let tree = mk_tree1(NotTerminal::N, t1);
            let node = GraphVizNode::new_node(id, String::from_str("N"), children);
            proof {
                assert(node@.children =~= seq![ch1]);
                assert(node@ =~= node_v(c0, "N"@, seq![ch1]));
            }
            Ok((node, tree))
        } else {
            Err(ParseError { position: self.pointer, message: String::from_str("Can't match rule") })
        }
    }

    #[allow(non_snake_case)]
    #[verifier::rlimit(50)]
    fn T(&mut self) -> (r: Result<(GraphVizNode, SyntaxTree), ParseError>)
        requires
            parser_wf(old(self).tokens@, old(self).pointer as int),
            counter_room(old(self).tokens@, old(self).pointer as int, old(self).counter as int, 2),
        ensures
            final(self).tokens == old(self).tokens,
            match r {
                Ok((node, tree)) => {
                    &&& sp_t(
                        tok_views(old(self).tokens@),
                        old(self).pointer as int,
                        old(self).counter as int,
                    ) == Ok::<(NodeV, STv, int, int), (int, Seq<char>)>(
                        (node@, tree@, final(self).pointer as int, final(self).counter as int),
                    )
                    &&& old(self).pointer < final(self).pointer
                    &&& parser_wf(final(self).tokens@, final(self).pointer as int)
                    &&& final(self).counter <= old(self).counter + 14 * (final(self).pointer
                        - old(self).pointer) + 2
                },
                Err(pe) => sp_t(
                    tok_views(old(self).tokens@),
                    old(self).pointer as int,
                    old(self).counter as int,
                ) == Err::<(NodeV, STv, int, int), (int, Seq<char>)>(
                    (pe.position as int, pe.message@),
                ),
            },
        decreases old(self).tokens@.len() - old(self).pointer, 3int,
    {
        let ghost ts = tok_views(old(self).tokens@);
        let ghost p0 = old(self).pointer as int;
        let ghost c0 = old(self).counter as int;
        proof {
            assert(ts[p0] == tok_view(old(self).tokens@[p0]));
        }
        let id = to_decimal(self.counter);
        let mut children: Vec<GraphVizNode> = Vec::new();
        self.counter = self.counter + 1;
        let sel: u8 = match &self.tokens[self.pointer] {
            Token::Var(_) => 1,
            Token::LB(_) => 2,
            _ => 0,
        };
        if sel == 1 {
            let (child0, _ident) = self.Var()?;
            let ghost ch0 = child0@;
            children.push(child0);
            let tree = mk_tree1(NotTerminal::T, mk_leaf(Token_::Var));
            let node = GraphVizNode::new_node(id, String::from_str("T"), children);
            proof {
                assert(node@.children =~= seq![ch0]);
                assert(node@ =~= node_v(c0, "T"@, seq![leaf_v(c0 + 1, "Var"@)]));
            }
            Ok((node, tree))
        } else if sel == 2 {
            let (child0, _ident) = self.LB()?;
            let ghost ch0 = child0@;
            children.push(child0);
            let (child1, t1) = self.X()?;
            let ghost ch1 = child1@;
            let ghost tv1 = t1@;
            children.push(child1);
            let ghost pe1 = self.pointer as int;
            let ghost ce1 = self.counter as int;
            proof {
                assert(ts[pe1] == tok_view(old(self).tokens@[pe1]));
            }
            let (child2, _ident2) = self.RB()?;
            let ghost ch2 = child2@;
            children.push(child2);
            let tree = mk_tree3(NotTerminal::T, mk_leaf(Token_::LeftBracket), t1, mk_leaf(Token_::RightBracket));
            let node = GraphVizNode::new_node(id, String::from_str("T"), children);
            proof {
                assert(node@.children =~= seq![ch0, ch1, ch2]);
                assert(node@ =~= node_v(
                    c0,
                    "T"@,
                    seq![leaf_v(c0 + 1, "LB"@), ch1, leaf_v(ce1, "RB"@)],
                ));
            }
            Ok((node, tree))
        } else {
            Err(ParseError { position: self.pointer, message: String::from_str("Can't match rule") })
        }
    }

}

/// Runs the logic parser on `input`: tokenize, then parse from the start
/// symbol. On success the parse tree and the synthesized syntax tree are
/// returned; on failure, the position and message of the first error.
pub fn parse(input: String) -> (r: Result<(GraphVizNode, SyntaxTree), ParseError>)
    ensures
        ({
            let scan = lex_spec(logic_skip_pats(), logic_token_pats(), input@, 0);
            match r {
                Ok((node, tree)) => {
                    &&& scan is Ok
                    &&& sp_s(toks_of_items(scan->Ok_0, encode_utf8(input@)), 0, 0) matches Ok(o)
                        && o.0 == node@ && o.1 == tree@
                },
                Err(pe) => {
                    if scan is Ok {
                        sp_s(toks_of_items(scan->Ok_0, encode_utf8(input@)), 0, 0) == Err::<
                            (NodeV, STv, int, int),
                            (int, Seq<char>),
                        >((pe.position as int, pe.message@))
                    } else {
                        scan == Err::<Seq<(int, int, int)>, int>(pe.position as int) && pe.message@
                            == "Expected token"@
                    }
                },
            }
        }),
{
    let toks = match Tokenizer::tokenize(input) {
        Ok(t) => t,
        Err(e) => {
            return Err(e);
        },
    };
    let n = toks.len();
    let mut parser = Parser::new(toks);
    match parser.S() {
        Ok((node, tree)) => Ok((node, tree)),
        Err(e) => Err(e),
    }
}


/// Determinism: the parser is a function of the token stream, so two
/// accepted runs over the same tokens agree on the parse tree and on the
/// synthesized syntax tree.
pub proof fn lemma_parse_deterministic(ts: Seq<TokV>, n1: NodeV, t1: STv, n2: NodeV, t2: STv)
    requires
        sp_s(ts, 0, 0) matches Ok(o1) && o1.0 == n1 && o1.1 == t1,
        sp_s(ts, 0, 0) matches Ok(o2) && o2.0 == n2 && o2.1 == t2,
    ensures
        n1 == n2,
        t1 == t2,
{
}

/// The label text of a terminal leaf in the picture.
pub open spec fn token_label_s(t: Token_) -> Seq<char> {
    match t {
        Token_::LeftBracket => "LeftBracket"@,
        Token_::RightBracket => "RightBracket"@,
        Token_::Var => "Var"@,
        Token_::And => "And"@,
        Token_::Or => "Or"@,
        Token_::Xor => "Xor"@,
        Token_::Not => "Not"@,
        Token_::Eof => "Eof"@,
        Token_::Eps => "Eps"@,
    }
}

/// The label text of a nonterminal node in the picture.
pub open spec fn not_terminal_label_s(t: NotTerminal) -> Seq<char> {
    match t {
        NotTerminal::X => "X"@,
        NotTerminal::X_ => "X_"@,
        NotTerminal::O => "O"@,
        NotTerminal::O_ => "O_"@,
        NotTerminal::A => "A"@,
        NotTerminal::A_ => "A_"@,
        NotTerminal::N => "N"@,
        NotTerminal::T => "T"@,
    }
}

/// A picture id: the prefix and the signed decimal of the counter.
pub open spec fn counter_id_s(prefix: Seq<char>, id: i64) -> Seq<char> {
    prefix + (if id >= 0 {
        dec_digits(id as nat)
    } else {
        "-"@ + dec_digits((-(id as int)) as nat)
    })
}

/// The picture of a syntax tree and the counter after it: one leaf box or
/// interior circle per node, ids numbered in preorder from `id` with
/// `term_`/`not_term_` prefixes, the counter wrapping as the host
/// integers do.
pub open spec fn gv_st(t: STv, id: i64) -> (NodeV, i64)
    decreases t, 0int,
{
    match t {
        STv::Leaf(term) => (
            NodeV {
                id: counter_id_s("term_"@, id),
                label: token_label_s(term),
                circle: false,
                children: Seq::empty(),
            },
            vstd::wrapping::i64_specs::wrapping_add(id, 1),
        ),
        STv::Tree(nt, cs) => {
            let (chs, next) = gv_st_list(cs, 0, vstd::wrapping::i64_specs::wrapping_add(id, 1));
            (
                NodeV {
                    id: counter_id_s("not_term_"@, id),
                    label: not_terminal_label_s(nt),
                    circle: true,
                    children: chs,
                },
                next,
            )
        },
    }
}

pub open spec fn gv_st_list(cs: Seq<STv>, i: int, id: i64) -> (Seq<NodeV>, i64)
    decreases cs, cs.len() - i,
{
    if 0 <= i < cs.len() {
        let (n1, id1) = gv_st(cs[i], id);
        let (rest, idn) = gv_st_list(cs, i + 1, id1);
        (seq![n1] + rest, idn)
    } else {
        (Seq::empty(), id)
    }
}

fn token_label(t: Token_) -> (r: &'static str)
    ensures
        r@ == token_label_s(t),
{
    match t {
        Token_::LeftBracket => "LeftBracket",
        Token_::RightBracket => "RightBracket",
        Token_::Var => "Var",
        Token_::And => "And",
        Token_::Or => "Or",
        Token_::Xor => "Xor",
        Token_::Not => "Not",
        Token_::Eof => "Eof",
        Token_::Eps => "Eps",
    }
}

fn not_terminal_label(t: NotTerminal) -> (r: &'static str)
    ensures
        r@ == not_terminal_label_s(t),
{
    match t {
        NotTerminal::X => "X",
        NotTerminal::X_ => "X_",
        NotTerminal::O => "O",
        NotTerminal::O_ => "O_",
        NotTerminal::A => "A",
        NotTerminal::A_ => "A_",
        NotTerminal::N => "N",
        NotTerminal::T => "T",
    }
}

fn counter_id(prefix: &str, id: i64) -> (r: String)
    ensures
        r@ == counter_id_s(prefix@, id),
{
    let mut out = String::from_str(prefix);
    if id >= 0 {
        crate::text::push_decimal(&mut out, id as u128);
    } else {
        out.append("-");
        if id == i64::MIN {
            crate::text::push_decimal(&mut out, 9223372036854775808u128);
        } else {
            crate::text::push_decimal(&mut out, (-id) as u128);
        }
    }
    proof {
        assert(out@ =~= counter_id_s(prefix@, id));
    }
    out
}

fn gv_children(
    children: &Vec<SyntaxTree>,
    i: usize,
    id: i64,
    out: &mut Vec<GraphVizNode>,
) -> (r: i64)
    requires
        i <= children@.len(),
    ensures
        ({
            let (specn, specid) = gv_st_list(st_view_list(children@, 0), i as int, id);
            &&& final(out)@.map_values(|c: GraphVizNode| c@) == old(out)@.map_values(
                |c: GraphVizNode| c@,
            ) + specn
            &&& r == specid
        }),
    decreases *children, children@.len() - i,
{
    proof {
        lemma_st_view_list(children@, 0);
    }
    if i == children.len() {
        proof {
            assert(final(out)@.map_values(|c: GraphVizNode| c@) =~= old(out)@.map_values(
                |c: GraphVizNode| c@,
            ) + gv_st_list(st_view_list(children@, 0), i as int, id).0);
        }
        return id;
    }
    let c = &children[i];
    proof {
        assert(decreases_to!(*children => *c));
        assert(st_view_list(children@, 0)[i as int] == c@);
    }
    let (tree, next) = graph_viz_from_syntax_tree_with_counter(c, id);
    let ghost treev = tree@;
    out.push(tree);
    let rr = gv_children(children, i + 1, next, out);
    proof {
        let cv = st_view_list(children@, 0);
        let (n1, id1) = gv_st(cv[i as int], id);
        let (rest, idn) = gv_st_list(cv, i + 1, id1);
        assert(gv_st_list(cv, i as int, id).0 == seq![n1] + rest);
        assert(final(out)@.map_values(|c2: GraphVizNode| c2@) =~= old(out)@.map_values(
            |c2: GraphVizNode| c2@,
        ) + gv_st_list(cv, i as int, id).0);
    }
    rr
}

/// One node of the picture per syntax-tree node, with ids numbered in
/// preorder from `id`; the counter after the subtree is returned. The
/// picture and the counter are exactly `gv_st` of the tree's view.
pub fn graph_viz_from_syntax_tree_with_counter(syntax_tree: &SyntaxTree, id: i64) -> (r: (
    GraphVizNode,
    i64,
))
    ensures
        r.0@ == gv_st(syntax_tree@, id).0,
        r.1 == gv_st(syntax_tree@, id).1,
    decreases *syntax_tree, 0int,
{
    match syntax_tree {
        SyntaxTree::Leaf(term) => {
            let node = GraphVizNode::new_leaf(
                counter_id("term_", id),
                String::from_str(token_label(*term)),
            );
            proof {
                assert(node@ =~= gv_st(syntax_tree@, id).0);
            }
            (node, id.wrapping_add(1))
        },
        SyntaxTree::Tree(not_terminal, children) => {
            proof {
                assert(decreases_to!(*syntax_tree => *children));
            }
            let mut vector: Vec<GraphVizNode> = Vec::new();
            let next = gv_children(children, 0, id.wrapping_add(1), &mut vector);
            let node = GraphVizNode::new_node(
                counter_id("not_term_", id),
                String::from_str(not_terminal_label(*not_terminal)),
                vector,
            );
            proof {
                assert(syntax_tree@ == STv::Tree(*not_terminal, st_view_list(children@, 0)));
                assert(node@ =~= gv_st(syntax_tree@, id).0);
            }
            (node, next)
        },
    }
}

/// The picture of a whole syntax tree, numbered from zero.
pub fn graph_viz_from_syntax_tree(syntax_tree: &SyntaxTree) -> (r: GraphVizNode)
    ensures
        r@ == gv_st(syntax_tree@, 0).0,
{
    let (tree, _) = graph_viz_from_syntax_tree_with_counter(syntax_tree, 0);
    tree
}

proof fn lemma_leaf_ids(c: int, label: Seq<char>)
    requires
        c >= 0,
    ensures
        ids_consecutive(leaf_v(c, label), c as nat),
        tree_size(leaf_v(c, label)) == 1,
{
    assert(ids_consecutive_list(leaf_v(c, label).children, (c + 1) as nat, 0));
    assert(tree_size_list(leaf_v(c, label).children, 0) == 0);
}

proof fn lemma_sp_s_ids(ts: Seq<TokV>, p: int, c: int)
    requires
        c >= 0,
        sp_s(ts, p, c) is Ok,
    ensures
        ({
            let o = sp_s(ts, p, c)->Ok_0;
            ids_consecutive(o.0, c as nat) && o.3 == c + tree_size(o.0)
        }),
    decreases ts.len() - p, 8int,
{
    let o = sp_s(ts, p, c)->Ok_0;
    lemma_sp_x_ids(ts, p, c + 1);
    let o1 = sp_x(ts, p, c + 1)->Ok_0;
    lemma_list_ids_1(o1.0, c);
}

proof fn lemma_sp_x_ids(ts: Seq<TokV>, p: int, c: int)
    requires
        c >= 0,
        sp_x(ts, p, c) is Ok,
    ensures
        ({
            let o = sp_x(ts, p, c)->Ok_0;
            ids_consecutive(o.0, c as nat) && o.3 == c + tree_size(o.0)
        }),
    decreases ts.len() - p, 7int,
{
    let o = sp_x(ts, p, c)->Ok_0;
    lemma_sp_o_ids(ts, p, c + 1);
    let o1 = sp_o(ts, p, c + 1)->Ok_0;
    lemma_sp_xx_ids(ts, o1.2, o1.3);
    let o2 = sp_xx(ts, o1.2, o1.3)->Ok_0;
    lemma_list_ids_2(o1.0, o2.0, c);
}

proof fn lemma_sp_xx_ids(ts: Seq<TokV>, p: int, c: int)
    requires
        c >= 0,
        sp_xx(ts, p, c) is Ok,
    ensures
        ({
            let o = sp_xx(ts, p, c)->Ok_0;
            ids_consecutive(o.0, c as nat) && o.3 == c + tree_size(o.0)
        }),
    decreases ts.len() - p, 9int,
{
    let o = sp_xx(ts, p, c)->Ok_0;
    match ts[p] {
        TokV::Xor(_) => {
            lemma_leaf_ids(c + 1, "Xor"@);
            lemma_sp_o_ids(ts, p + 1, c + 2);
            let o1 = sp_o(ts, p + 1, c + 2)->Ok_0;
            lemma_sp_xx_ids(ts, o1.2, o1.3);
            let o2 = sp_xx(ts, o1.2, o1.3)->Ok_0;
            lemma_list_ids_3(leaf_v(c + 1, "Xor"@), o1.0, o2.0, c);
        },
        TokV::RB(_) | TokV::Eof => {
            assert(ids_consecutive_list(o.0.children, (c + 1) as nat, 0));
            assert(tree_size_list(o.0.children, 0) == 0);
        },
        _ => {},
    }
}

proof fn lemma_sp_o_ids(ts: Seq<TokV>, p: int, c: int)
    requires
        c >= 0,
        sp_o(ts, p, c) is Ok,
    ensures
        ({
            let o = sp_o(ts, p, c)->Ok_0;
            ids_consecutive(o.0, c as nat) && o.3 == c + tree_size(o.0)
        }),
    decreases ts.len() - p, 6int,
{
    let o = sp_o(ts, p, c)->Ok_0;
    lemma_sp_a_ids(ts, p, c + 1);
    let o1 = sp_a(ts, p, c + 1)->Ok_0;
    lemma_sp_ox_ids(ts, o1.2, o1.3);
    let o2 = sp_ox(ts, o1.2, o1.3)->Ok_0;
    lemma_list_ids_2(o1.0, o2.0, c);
}

proof fn lemma_sp_ox_ids(ts: Seq<TokV>, p: int, c: int)
    requires
        c >= 0,
        sp_ox(ts, p, c) is Ok,
    ensures
        ({
            let o = sp_ox(ts, p, c)->Ok_0;
            ids_consecutive(o.0, c as nat) && o.3 == c + tree_size(o.0)
        }),
    decreases ts.len() - p, 9int,
{
    let o = sp_ox(ts, p, c)->Ok_0;
    match ts[p] {
        TokV::Or(_) => {
            lemma_leaf_ids(c + 1, "Or"@);
            lemma_sp_a_ids(ts, p + 1, c + 2);
            let o1 = sp_a(ts, p + 1, c + 2)->Ok_0;
            lemma_sp_ox_ids(ts, o1.2, o1.3);
            let o2 = sp_ox(ts, o1.2, o1.3)->Ok_0;
            lemma_list_ids_3(leaf_v(c + 1, "Or"@), o1.0, o2.0, c);
        },
        TokV::Xor(_) | TokV::Eof | TokV::RB(_) => {
            assert(ids_consecutive_list(o.0.children, (c + 1) as nat, 0));
            assert(tree_size_list(o.0.children, 0) == 0);
        },
        _ => {},
    }
}

proof fn lemma_sp_a_ids(ts: Seq<TokV>, p: int, c: int)
    requires
        c >= 0,
        sp_a(ts, p, c) is Ok,
    ensures
        ({
            let o = sp_a(ts, p, c)->Ok_0;
            ids_consecutive(o.0, c as nat) && o.3 == c + tree_size(o.0)
        }),
    decreases ts.len() - p, 5int,
{
    let o = sp_a(ts, p, c)->Ok_0;
    lemma_sp_n_ids(ts, p, c + 1);
    let o1 = sp_n(ts, p, c + 1)->Ok_0;
    lemma_sp_ax_ids(ts, o1.2, o1.3);
    let o2 = sp_ax(ts, o1.2, o1.3)->Ok_0;
    lemma_list_ids_2(o1.0, o2.0, c);
}

proof fn lemma_sp_ax_ids(ts: Seq<TokV>, p: int, c: int)
    requires
        c >= 0,
        sp_ax(ts, p, c) is Ok,
    ensures
        ({
            let o = sp_ax(ts, p, c)->Ok_0;
            ids_consecutive(o.0, c as nat) && o.3 == c + tree_size(o.0)
        }),
    decreases ts.len() - p, 9int,
{
    let o = sp_ax(ts, p, c)->Ok_0;
    match ts[p] {
        TokV::And(_) => {
            lemma_leaf_ids(c + 1, "And"@);
            lemma_sp_n_ids(ts, p + 1, c + 2);
            let o1 = sp_n(ts, p + 1, c + 2)->Ok_0;
            lemma_sp_ax_ids(ts, o1.2, o1.3);
            let o2 = sp_ax(ts, o1.2, o1.3)->Ok_0;
            lemma_list_ids_3(leaf_v(c + 1, "And"@), o1.0, o2.0, c);
        },
        TokV::Or(_) | TokV::RB(_) | TokV::Xor(_) | TokV::Eof => {
            assert(ids_consecutive_list(o.0.children, (c + 1) as nat, 0));
            assert(tree_size_list(o.0.children, 0) == 0);
        },
        _ => {},
    }
}

proof fn lemma_sp_n_ids(ts: Seq<TokV>, p: int, c: int)
    requires
        c >= 0,
        sp_n(ts, p, c) is Ok,
    ensures
        ({
            let o = sp_n(ts, p, c)->Ok_0;
            ids_consecutive(o.0, c as nat) && o.3 == c + tree_size(o.0)
        }),
    decreases ts.len() - p, 4int,
{
    let o = sp_n(ts, p, c)->Ok_0;
    match ts[p] {
        TokV::Not(_) => {
            lemma_leaf_ids(c + 1, "Not"@);
            lemma_sp_t_ids(ts, p + 1, c + 2);
            let o1 = sp_t(ts, p + 1, c + 2)->Ok_0;
            lemma_list_ids_2(leaf_v(c + 1, "Not"@), o1.0, c);
        },
        TokV::LB(_) | TokV::Var(_) => {
            lemma_sp_t_ids(ts, p, c + 1);
            let o1 = sp_t(ts, p, c + 1)->Ok_0;
            lemma_list_ids_1(o1.0, c);
        },
        _ => {},
    }
}

proof fn lemma_sp_t_ids(ts: Seq<TokV>, p: int, c: int)
    requires
        c >= 0,
        sp_t(ts, p, c) is Ok,
    ensures
        ({
            let o = sp_t(ts, p, c)->Ok_0;
            ids_consecutive(o.0, c as nat) && o.3 == c + tree_size(o.0)
        }),
    decreases ts.len() - p, 3int,
{
    let o = sp_t(ts, p, c)->Ok_0;
    match ts[p] {
        TokV::Var(_) => {
            lemma_leaf_ids(c + 1, "Var"@);
            lemma_list_ids_1(leaf_v(c + 1, "Var"@), c);
        },
        TokV::LB(_) => {
            lemma_leaf_ids(c + 1, "LB"@);
            lemma_sp_x_ids(ts, p + 1, c + 2);
            let o1 = sp_x(ts, p + 1, c + 2)->Ok_0;
            lemma_leaf_ids(o1.3, "RB"@);
            lemma_list_ids_3(leaf_v(c + 1, "LB"@), o1.0, leaf_v(o1.3, "RB"@), c);
        },
        _ => {},
    }
}

/// Node-id preorder: an accepted parse numbers its nodes with
/// consecutive counter values in preorder from zero, so each descendant's
/// id decodes a strictly larger counter than its ancestor's (see
/// `crate::graphviz::lemma_preorder_ids`).
pub proof fn lemma_parse_ids_preorder(ts: Seq<TokV>)
    requires
        sp_s(ts, 0, 0) is Ok,
    ensures
        ids_consecutive(sp_s(ts, 0, 0)->Ok_0.0, 0),
{
    lemma_sp_s_ids(ts, 0, 0);
}

} // verus!
