//! The tokenizer emitter: the token sum type, the lazily initialized
//! pattern globals, and the scanner with its ordered, cursor-anchored
//! matching loop. Every emitted line is stated exactly by the spec
//! functions beside each emitter.
use vstd::prelude::*;
use vstd::string::StrSliceExecFns;
use vstd::string::StringExecFns;

use crate::parser_description::ParserDescription;
use crate::parser_description::Token;

verus! {

/// The name of the reserved end-of-input terminal.
pub fn eof_token() -> (r: &'static str)
    ensures
        r@ == "Eof"@,
{
    "Eof"
}

/// The variants of the emitted `Token` enum from index `i` on, closed by
/// the end-of-input variant.
pub open spec fn tokens_enum_items(toks: Seq<Token>, i: int) -> Seq<char>
    decreases toks.len() - i,
{
    if 0 <= i < toks.len() {
        toks[i].name@ + "(String),\n"@ + tokens_enum_items(toks, i + 1)
    } else {
        "Eof,\n}\n"@
    }
}

/// The emitted `Token` sum type: one lexeme-carrying variant per declared
/// terminal, in declaration order, and the end-of-input marker.
pub open spec fn tokens_enum_text(toks: Seq<Token>) -> Seq<char> {
    "#[derive(Debug)]\npub enum Token {\n"@ + tokens_enum_items(toks, 0)
}

fn get_tokens_enum(tokens: &Vec<Token>) -> (r: String)
    ensures
        r@ == tokens_enum_text(tokens@),
{
    let mut out = String::from_str("#[derive(Debug)]\npub enum Token {\n");
    let n = tokens.len();
    let mut i: usize = 0;
    while i < n
        invariant
            n == tokens@.len(),
            i <= n,
            tokens_enum_text(tokens@) == out@ + tokens_enum_items(tokens@, i as int),
        decreases n - i,
    {
        out.append(tokens[i].name.as_str());
        out.append("(String),\n");
        proof {
            assert(tokens_enum_text(tokens@) =~= out@ + tokens_enum_items(tokens@, i + 1));
        }
        i = i + 1;
    }
    out.append("Eof,\n}\n");
    proof {
        assert(out@ =~= tokens_enum_text(tokens@));
    }
    out
}

/// The pattern globals from index `i` on, closed by the macro's tail.
pub open spec fn tokens_regex_items(toks: Seq<Token>, i: int) -> Seq<char>
    decreases toks.len() - i,
{
    if 0 <= i < toks.len() {
        "static ref "@ + toks[i].name@ + "_regex: Regex = Regex::new("@ + toks[i].regex@
            + ").unwrap(); \n"@ + tokens_regex_items(toks, i + 1)
    } else {
        ");\n"@
    }
}

/// One lazily initialized compiled pattern per terminal, in declaration
/// order.
pub open spec fn tokens_regex_text(toks: Seq<Token>) -> Seq<char> {
    "lazy_static!(\n"@ + tokens_regex_items(toks, 0)
}

fn get_tokens_regex(tokens: &Vec<Token>) -> (r: String)
    ensures
        r@ == tokens_regex_text(tokens@),
{
    let mut out = String::from_str("lazy_static!(\n");
    let n = tokens.len();
    let mut i: usize = 0;
    while i < n
        invariant
            n == tokens@.len(),
            i <= n,
            tokens_regex_text(tokens@) == out@ + tokens_regex_items(tokens@, i as int),
        decreases n - i,
    {
        out.append("static ref ");
        out.append(tokens[i].name.as_str());
        out.append("_regex: Regex = Regex::new(");
        out.append(tokens[i].regex.as_str());
        out.append(").unwrap(); \n");
        proof {
            assert(tokens_regex_text(tokens@) =~= out@ + tokens_regex_items(tokens@, i + 1));
        }
        i = i + 1;
    }
    out.append(");\n");
    proof {
        assert(out@ =~= tokens_regex_text(tokens@));
    }
    out
}

/// The skip patterns from index `i` on, closed by the macro's tail.
pub open spec fn skip_regex_items(skips: Seq<String>, i: int) -> Seq<char>
    decreases skips.len() - i,
{
    if 0 <= i < skips.len() {
        "Regex::new("@ + skips[i]@ + ").unwrap(),"@ + skip_regex_items(skips, i + 1)
    } else {
        ");\n);\n"@
    }
}

/// The ordered list of skip patterns.
pub open spec fn skip_regex_text(skips: Seq<String>) -> Seq<char> {
    "lazy_static!(\nstatic ref SKIP_REGEX: Vec<Regex> = vec!("@ + skip_regex_items(skips, 0)
}

fn get_skip_regex(skip_regex: &Vec<String>) -> (r: String)
    ensures
        r@ == skip_regex_text(skip_regex@),
{
    let mut out = String::from_str("lazy_static!(\nstatic ref SKIP_REGEX: Vec<Regex> = vec!(");
    let n = skip_regex.len();
    let mut i: usize = 0;
    while i < n
        invariant
            n == skip_regex@.len(),
            i <= n,
            skip_regex_text(skip_regex@) == out@ + skip_regex_items(skip_regex@, i as int),
        decreases n - i,
    {
        out.append("Regex::new(");
        out.append(skip_regex[i].as_str());
        out.append(").unwrap(),");
        proof {
            assert(skip_regex_text(skip_regex@) =~= out@ + skip_regex_items(skip_regex@, i + 1));
        }
        i = i + 1;
    }
    out.append(");\n);\n");
    proof {
        assert(out@ =~= skip_regex_text(skip_regex@));
    }
    out
}

/// The anchored matching steps from index `i` on, closed by the no-match
/// tail: each terminal is tried in declaration order, and a match counts
/// only when it starts exactly at the cursor.
pub open spec fn matcher_items(toks: Seq<Token>, i: int) -> Seq<char>
    decreases toks.len() - i,
{
    if 0 <= i < toks.len() {
        "if let Some(m) = "@ + toks[i].name@
            + "_regex.find_at(&self.input, self.pointer) {\nif m.start() == self.pointer {\nself.pointer = m.end();\nreturn Some(Token::"@
            + toks[i].name@ + "(self.input[m.start() .. m.end()].to_string()))}}\n"@
            + matcher_items(toks, i + 1)
    } else {
        "None\n}\n}\n"@
    }
}

/// The first-match-by-order token scanner.
pub open spec fn matcher_text(toks: Seq<Token>) -> Seq<char> {
    "impl Tokenizer {\nfn match_token(&mut self) -> Option<Token> {\n"@ + matcher_items(toks, 0)
}

fn get_matching_regex_in_tokenizer(tokens: &Vec<Token>) -> (r: String)
    ensures
        r@ == matcher_text(tokens@),
{
    let mut out = String::from_str("impl Tokenizer {\nfn match_token(&mut self) -> Option<Token> {\n");
    let n = tokens.len();
    let mut i: usize = 0;
    while i < n
        invariant
            n == tokens@.len(),
            i <= n,
            matcher_text(tokens@) == out@ + matcher_items(tokens@, i as int),
        decreases n - i,
    {
        out.append("if let Some(m) = ");
        out.append(tokens[i].name.as_str());
        out.append("_regex.find_at(&self.input, self.pointer) {\nif m.start() == self.pointer {\nself.pointer = m.end();\nreturn Some(Token::");
        out.append(tokens[i].name.as_str());
        out.append("(self.input[m.start() .. m.end()].to_string()))}}\n");
        proof {
            assert(matcher_text(tokens@) =~= out@ + matcher_items(tokens@, i + 1));
        }
        i = i + 1;
    }
    out.append("None\n}\n}\n");
    proof {
        assert(out@ =~= matcher_text(tokens@));
    }
    out
}

/// The fixed scanner text: the `Tokenizer` state, the error type, and the
/// skip-then-match loop that appends the one end-of-input token.
pub open spec fn tokenizer_fixed_tail() -> Seq<char> {
    "\nimpl Tokenizer {\n        fn new(input: String) -> Tokenizer {\n            Tokenizer{\n                input,\n                pointer: 0,\n            }\n        }\n\n        pub fn tokenize(input: String) -> Result<Vec<Token>, ParseError> {\n            Tokenizer::new(input).run_tokenizing()\n        }\n\n        fn skip(&mut self) -> bool {\n            for regex in SKIP_REGEX.iter() {\n                if let Some(m) = regex.find_at(&self.input, self.pointer) {\n                     let s = m.start();\n                     if s == self.pointer {\n                         self.pointer = m.end();\n                         return true;\n                     }\n                }\n            }\n            false\n        }\n\n        fn run_tokenizing(&mut self) -> Result<Vec<Token>, ParseError> {\n            let mut tokens: Vec<Token> = Vec::new();\n            while self.pointer < self.input.len() {\n                if self.skip() {\n                    continue;\n                }\n                if let Some(token) = self.match_token() {\n                   tokens.push(token);\n                   continue;\n                }\n                return Err(\n                    ParseError {\n                        position: self.pointer,\n                        message: \"Expected token\".to_string(),\n                    }\n                )\n            }\n            tokens.push(Token::Eof);\n            Ok(tokens)\n        }\n}\n"@
}

/// The whole lexical phase of a grammar description, in the §4.3 layout:
/// token enum, pattern globals, skip list, scanner state, error type, the
/// anchored matcher, and the fixed scanning loop.
pub open spec fn tokenizer_text(pd: ParserDescription) -> Seq<char> {
    tokens_enum_text(pd.tokens@) + "\n"@ + tokens_regex_text(pd.tokens@) + "\n"@ + skip_regex_text(
        pd.skip@,
    ) + "\n"@ + "pub struct Tokenizer {\n     input: String,\n     pointer: usize,\n}"@ + "\n"@
        + "#[derive(Debug)]\npub struct ParseError {\n    pub position: usize,\n    pub message: String,\n}"@
        + "\n"@ + matcher_text(pd.tokens@) + "\n"@ + tokenizer_fixed_tail() + "\n"@
}

/// Emits the whole lexical phase for a grammar description.
pub fn generate_tokenizer(parser_description: &ParserDescription) -> (r: String)
    ensures
        r@ == tokenizer_text(*parser_description),
{
    let mut answer = String::new();
    let enum_text = get_tokens_enum(&parser_description.tokens);
    answer.append(enum_text.as_str());
    answer.append("\n");
    let tok_re = get_tokens_regex(&parser_description.tokens);
    answer.append(tok_re.as_str());
    answer.append("\n");
    let skip_re = get_skip_regex(&parser_description.skip);
    answer.append(skip_re.as_str());
    answer.append("\n");
    answer.append("pub struct Tokenizer {\n     input: String,\n     pointer: usize,\n}");
    answer.append("\n");
    answer.append(
        "#[derive(Debug)]\npub struct ParseError {\n    pub position: usize,\n    pub message: String,\n}",
    );
    answer.append("\n");
    let matcher = get_matching_regex_in_tokenizer(&parser_description.tokens);
    answer.append(matcher.as_str());
    answer.append("\n");
    answer.append(
        "\nimpl Tokenizer {\n        fn new(input: String) -> Tokenizer {\n            Tokenizer{\n                input,\n                pointer: 0,\n            }\n        }\n\n        pub fn tokenize(input: String) -> Result<Vec<Token>, ParseError> {\n            Tokenizer::new(input).run_tokenizing()\n        }\n\n        fn skip(&mut self) -> bool {\n            for regex in SKIP_REGEX.iter() {\n                if let Some(m) = regex.find_at(&self.input, self.pointer) {\n                     let s = m.start();\n                     if s == self.pointer {\n                         self.pointer = m.end();\n                         return true;\n                     }\n                }\n            }\n            false\n        }\n\n        fn run_tokenizing(&mut self) -> Result<Vec<Token>, ParseError> {\n            let mut tokens: Vec<Token> = Vec::new();\n            while self.pointer < self.input.len() {\n                if self.skip() {\n                    continue;\n                }\n                if let Some(token) = self.match_token() {\n                   tokens.push(token);\n                   continue;\n                }\n                return Err(\n                    ParseError {\n                        position: self.pointer,\n                        message: \"Expected token\".to_string(),\n                    }\n                )\n            }\n            tokens.push(Token::Eof);\n            Ok(tokens)\n        }\n}\n",
    );
    answer.append("\n");
    proof {
        assert(answer@ =~= tokenizer_text(*parser_description));
    }
    answer
}

} // verus!
