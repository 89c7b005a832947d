//! The tokenizer runtime shared by the generated-parser examples.
//!
//! Scanning follows the contract of every emitted tokenizer: at each byte
//! position, first try the skip patterns in declaration order and step over
//! a match anchored at the cursor; otherwise emit a token for the first
//! token pattern whose match is anchored at the cursor; otherwise fail at
//! the cursor. A pattern whose anchored match would be empty is passed
//! over, so the cursor strictly advances.
use vstd::prelude::*;
use vstd::string::StrSliceExecFns;
use vstd::string::StringExecFns;
use vstd::string::StringSliceAdditionalSpecFns;
use vstd::utf8::encode_utf8;

verus! {

/// What `regex::Regex::find_at` yields for a pattern, a haystack and a
/// starting byte offset: the byte span of the first match at or after that
/// offset, if any. A function of the three arguments alone.
pub uninterp spec fn regex_search(pattern: Seq<char>, hay: Seq<char>, from: int) -> Option<
    (usize, usize),
>;

/// Relies on regex::Regex::new and regex::Regex::find_at: the span of the
/// first match of `pattern` at or after byte offset `from` of `hay`, and the
/// matched text itself; the span lies within the haystack and begins no
/// earlier than `from`. A pattern that does not compile yields no match.
/// The two calls stand behind the one name `regex_search` because both
/// compilation and the search are functions of the pattern text, the
/// haystack and the offset alone.
#[verifier::external_body]
fn regex_find_at(pattern: &str, hay: &str, from: usize) -> (r: Option<(usize, usize, String)>)
    requires
        from <= hay.spec_bytes().len(),
    ensures
        match r {
            Some((s, e, text)) => {
                &&& regex_search(pattern@, hay@, from as int) == Some((s, e))
                &&& from <= s <= e <= hay.spec_bytes().len()
                &&& encode_utf8(text@) == hay.spec_bytes().subrange(s as int, e as int)
            },
            None => regex_search(pattern@, hay@, from as int) is None,
        },
{
    match regex::Regex::new(pattern) {
        Ok(re) => re.find_at(hay, from).map(|m| (m.start(), m.end(), m.as_str().to_string())),
        Err(_) => None,
    }
}

/// The views of a list of patterns.
pub open spec fn strs_view(v: Seq<&str>) -> Seq<Seq<char>> {
    v.map_values(|s: &str| s@)
}

/// The byte offset after the first skip pattern (from index `i` on) whose
/// match is anchored at `pos` and not empty.
pub open spec fn first_skip(skips: Seq<Seq<char>>, hay: Seq<char>, pos: int, i: int) -> Option<int>
    decreases skips.len() - i,
{
    if 0 <= i < skips.len() {
        match regex_search(skips[i], hay, pos) {
            Some((s, e)) => if s == pos && e > pos {
                Some(e as int)
            } else {
                first_skip(skips, hay, pos, i + 1)
            },
            None => first_skip(skips, hay, pos, i + 1),
        }
    } else {
        None
    }
}

/// The first token pattern (from index `i` on) whose match is anchored at
/// `pos` and not empty, with the byte offset after the match.
pub open spec fn first_token(pats: Seq<Seq<char>>, hay: Seq<char>, pos: int, i: int) -> Option<
    (int, int),
>
    decreases pats.len() - i,
{
    if 0 <= i < pats.len() {
        match regex_search(pats[i], hay, pos) {
            Some((s, e)) => if s == pos && e > pos {
                Some((i, e as int))
            } else {
                first_token(pats, hay, pos, i + 1)
            },
            None => first_token(pats, hay, pos, i + 1),
        }
    } else {
        None
    }
}

/// The token stream read from `hay` starting at byte offset `pos`: each item
/// is a token-pattern index with the byte span of its lexeme. `Err` carries
/// the byte offset at which no skip and no token pattern applied.
pub open spec fn lex_spec(
    skips: Seq<Seq<char>>,
    pats: Seq<Seq<char>>,
    hay: Seq<char>,
    pos: int,
) -> Result<Seq<(int, int, int)>, int>
    decreases encode_utf8(hay).len() - pos,
{
    let n = encode_utf8(hay).len() as int;
    if pos < 0 || pos >= n {
        Ok(Seq::empty())
    } else {
        match first_skip(skips, hay, pos, 0) {
            Some(e) => if pos < e <= n {
                lex_spec(skips, pats, hay, e)
            } else {
                Err(-1)
            },
            None => match first_token(pats, hay, pos, 0) {
                Some((k, e)) => if pos < e <= n {
                    match lex_spec(skips, pats, hay, e) {
                        Ok(rest) => Ok(seq![(k, pos, e)] + rest),
                        Err(p) => Err(p),
                    }
                } else {
                    Err(-1)
                },
                None => Err(pos),
            },
        }
    }
}

/// One scanned token: the index of the token pattern that matched and the
/// matched text.
pub struct LexToken {
    pub kind: usize,
    pub text: String,
}

/// `v` lists exactly the lexemes of `items`, read from the haystack bytes.
pub open spec fn lexemes_match(v: Seq<LexToken>, items: Seq<(int, int, int)>, hb: Seq<u8>) -> bool {
    &&& v.len() == items.len()
    &&& forall|i: int|
        0 <= i < v.len() ==> (#[trigger] v[i]).kind == items[i].0 && encode_utf8(v[i].text@)
            == hb.subrange(items[i].1, items[i].2)
}

pub(crate) fn skip_step(skips: &Vec<&str>, hay: &str, pos: usize) -> (r: Option<usize>)
    requires
        pos <= hay.spec_bytes().len(),
    ensures
        match r {
            Some(e) => first_skip(strs_view(skips@), hay@, pos as int, 0) == Some(e as int) && pos
                < e <= hay.spec_bytes().len(),
            None => first_skip(strs_view(skips@), hay@, pos as int, 0) is None,
        },
{
    let ghost sv = strs_view(skips@);
    let n = skips.len();
    let mut i: usize = 0;
    while i < n
        invariant
            n == skips.len(),
            i <= n,
            sv == strs_view(skips@),
            sv.len() == n,
            pos <= hay.spec_bytes().len(),
            first_skip(sv, hay@, pos as int, 0) == first_skip(sv, hay@, pos as int, i as int),
        decreases n - i,
    {
        proof {
            assert(sv[i as int] == skips@[i as int]@);
        }
        match regex_find_at(skips[i], hay, pos) {
            Some((s, e, _text)) => {
                if s == pos && e > pos {
                    return Some(e);
                }
            },
            None => {},
        }
        i = i + 1;
    }
    None
}

pub(crate) fn token_step(pats: &Vec<&str>, hay: &str, pos: usize) -> (r: Option<(usize, usize, String)>)
    requires
        pos <= hay.spec_bytes().len(),
    ensures
        match r {
            Some((k, e, text)) => {
                &&& first_token(strs_view(pats@), hay@, pos as int, 0) == Some((k as int, e as int))
                &&& pos < e <= hay.spec_bytes().len()
                &&& encode_utf8(text@) == hay.spec_bytes().subrange(pos as int, e as int)
            },
            None => first_token(strs_view(pats@), hay@, pos as int, 0) is None,
        },
{
    let ghost sv = strs_view(pats@);
    let n = pats.len();
    let mut i: usize = 0;
    while i < n
        invariant
            n == pats.len(),
            i <= n,
            sv == strs_view(pats@),
            sv.len() == n,
            pos <= hay.spec_bytes().len(),
            first_token(sv, hay@, pos as int, 0) == first_token(sv, hay@, pos as int, i as int),
        decreases n - i,
    {
        proof {
            assert(sv[i as int] == pats@[i as int]@);
        }
        match regex_find_at(pats[i], hay, pos) {
            Some((s, e, text)) => {
                if s == pos && e > pos {
                    return Some((i, e, text));
                }
            },
            None => {},
        }
        i = i + 1;
    }
    None
}

/// Scans the whole input. On success the result lists the tokens of
/// `lex_spec` in order, each carrying its lexeme; on failure the byte offset
/// of `lex_spec`'s error is returned.
pub fn run_lexer(input: &str, skips: &Vec<&str>, pats: &Vec<&str>) -> (r: Result<
    Vec<LexToken>,
    usize,
>)
    ensures
        match r {
            Ok(v) => lex_spec(strs_view(skips@), strs_view(pats@), input@, 0) is Ok
                && lexemes_match(
                v@,
                lex_spec(strs_view(skips@), strs_view(pats@), input@, 0)->Ok_0,
                input.spec_bytes(),
            ),
            Err(p) => lex_spec(strs_view(skips@), strs_view(pats@), input@, 0) == Err::<
                Seq<(int, int, int)>,
                int,
            >(p as int),
        },
{
    let ghost sv = strs_view(skips@);
    let ghost pv = strs_view(pats@);
    let n = input.as_bytes().len();
    let mut out: Vec<LexToken> = Vec::new();
    let ghost mut done: Seq<(int, int, int)> = Seq::empty();
    let mut pos: usize = 0;
    proof {
        if lex_spec(sv, pv, input@, 0) is Ok {
            assert(done + lex_spec(sv, pv, input@, 0)->Ok_0 =~= lex_spec(sv, pv, input@, 0)->Ok_0);
        }
    }
    while pos < n
        invariant
            n == input.spec_bytes().len(),
            pos <= n,
            sv == strs_view(skips@),
            pv == strs_view(pats@),
            lexemes_match(out@, done, input.spec_bytes()),
            lex_spec(sv, pv, input@, 0) == (match lex_spec(sv, pv, input@, pos as int) {
                Ok(rest) => Ok::<Seq<(int, int, int)>, int>(done + rest),
                Err(p) => Err(p),
            }),
        decreases n - pos,
    {
        match skip_step(skips, input, pos) {
            Some(e) => {
                proof {
                    assert(lex_spec(sv, pv, input@, pos as int) == lex_spec(
                        sv,
                        pv,
                        input@,
                        e as int,
                    ));
                }
                pos = e;
            },
            None => {
                match token_step(pats, input, pos) {
                    Some((k, e, text)) => {
                        proof {
                            assert(lex_spec(sv, pv, input@, pos as int) == (
                            match lex_spec(sv, pv, input@, e as int) {
                                Ok(rest) => Ok::<Seq<(int, int, int)>, int>(
                                    seq![(k as int, pos as int, e as int)] + rest,
                                ),
                                Err(p) => Err(p),
                            }));
                        }
                        out.push(LexToken { kind: k, text });
                        proof {
                            let item = (k as int, pos as int, e as int);
                            let d0 = done;
                            done = d0 + seq![item];
                            if lex_spec(sv, pv, input@, e as int) is Ok {
                                let rest = lex_spec(sv, pv, input@, e as int)->Ok_0;
                                assert(lex_spec(sv, pv, input@, pos as int)->Ok_0 == seq![item]
                                    + rest);
                                assert(d0 + (seq![item] + rest) =~= done + rest);
                                assert(lex_spec(sv, pv, input@, 0) == Ok::<
                                    Seq<(int, int, int)>,
                                    int,
                                >(done + rest));
                            }
                        }
                        pos = e;
                    },
                    None => {
                        proof {
                            assert(lex_spec(sv, pv, input@, pos as int) == Err::<
                                Seq<(int, int, int)>,
                                int,
                            >(pos as int));
                        }
                        return Err(pos);
                    },
                }
            },
        }
    }
    proof {
        assert(lex_spec(sv, pv, input@, pos as int) == Ok::<Seq<(int, int, int)>, int>(
            Seq::empty(),
        ));
        assert(done + Seq::<(int, int, int)>::empty() =~= done);
    }
    Ok(out)
}

/// A match reported by `first_token` names a pattern at or after the index
/// the search started from.
pub proof fn lemma_first_token_kind(pats: Seq<Seq<char>>, hay: Seq<char>, pos: int, i: int)
    requires
        first_token(pats, hay, pos, i) is Some,
        0 <= i,
    ensures
        i <= first_token(pats, hay, pos, i)->Some_0.0 < pats.len(),
    decreases pats.len() - i,
{
    if 0 <= i < pats.len() {
        match regex_search(pats[i], hay, pos) {
            Some((s, e)) => {
                if s == pos && e > pos {
                } else {
                    lemma_first_token_kind(pats, hay, pos, i + 1);
                }
            },
            None => {
                lemma_first_token_kind(pats, hay, pos, i + 1);
            },
        }
    }
}

/// Every token of a scanned stream names one of the token patterns.
pub proof fn lemma_lexer_kinds_in_range(
    skips: Seq<Seq<char>>,
    pats: Seq<Seq<char>>,
    hay: Seq<char>,
    pos: int,
)
    requires
        pos >= 0,
        lex_spec(skips, pats, hay, pos) is Ok,
    ensures
        forall|i: int|
            0 <= i < lex_spec(skips, pats, hay, pos)->Ok_0.len() ==> 0 <= (#[trigger] lex_spec(
                skips,
                pats,
                hay,
                pos,
            )->Ok_0[i]).0 < pats.len(),
    decreases encode_utf8(hay).len() - pos,
{
    let n = encode_utf8(hay).len() as int;
    if pos < 0 || pos >= n {
    } else {
        match first_skip(skips, hay, pos, 0) {
            Some(e) => {
                if pos < e <= n {
                    lemma_lexer_kinds_in_range(skips, pats, hay, e);
                    let items = lex_spec(skips, pats, hay, pos)->Ok_0;
                    let rest = lex_spec(skips, pats, hay, e)->Ok_0;
                    assert forall|i: int| 0 <= i < items.len() implies 0 <= (
                    #[trigger] items[i]).0 < pats.len() by {
                        assert(items[i] == rest[i]);
                    }
                }
            },
            None => {
                match first_token(pats, hay, pos, 0) {
                    Some((k, e)) => {
                        if pos < e <= n {
                            lemma_lexer_kinds_in_range(skips, pats, hay, e);
                            lemma_first_token_kind(pats, hay, pos, 0);
                            if lex_spec(skips, pats, hay, e) is Ok {
                                let rest = lex_spec(skips, pats, hay, e)->Ok_0;
                                let items = lex_spec(skips, pats, hay, pos)->Ok_0;
                                assert(items == seq![(k, pos, e)] + rest);
                                assert forall|i: int| 0 <= i < items.len() implies 0 <= (
                                #[trigger] items[i]).0 < pats.len() by {
                                    let added = seq![(k, pos, e)] + rest;
                                    assert(items[i] == added[i]);
                                    if i == 0 {
                                        assert(added[0] == (k, pos, e));
                                    } else {
                                        assert(added[i] == rest[i - 1]);
                                    }
                                }
                            }
                        }
                    },
                    None => {},
                }
            },
        }
    }
}

/// Anchoring: in any scanned token stream the lexeme spans are non-empty,
/// in bounds, and the match position strictly increases from each emitted
/// token to the next.
pub proof fn lemma_lexer_positions_increase(
    skips: Seq<Seq<char>>,
    pats: Seq<Seq<char>>,
    hay: Seq<char>,
    pos: int,
)
    requires
        pos >= 0,
        lex_spec(skips, pats, hay, pos) is Ok,
    ensures
        forall|i: int|
            0 <= i < lex_spec(skips, pats, hay, pos)->Ok_0.len() ==> {
                let t = #[trigger] lex_spec(skips, pats, hay, pos)->Ok_0[i];
                pos <= t.1 && t.1 < t.2 <= encode_utf8(hay).len()
            },
        forall|i: int|
            0 <= i && i + 1 < lex_spec(skips, pats, hay, pos)->Ok_0.len() ==> (
            #[trigger] lex_spec(skips, pats, hay, pos)->Ok_0[i]).2 <= lex_spec(
                skips,
                pats,
                hay,
                pos,
            )->Ok_0[i + 1].1,
    decreases encode_utf8(hay).len() - pos,
{
    let n = encode_utf8(hay).len() as int;
    if pos < 0 || pos >= n {
    } else {
        match first_skip(skips, hay, pos, 0) {
            Some(e) => {
                if pos < e <= n {
                    lemma_lexer_positions_increase(skips, pats, hay, e);
                    let items = lex_spec(skips, pats, hay, pos)->Ok_0;
                    let rest = lex_spec(skips, pats, hay, e)->Ok_0;
                    assert(items == rest);
                    assert forall|i: int| 0 <= i < items.len() implies {
                        let t = #[trigger] items[i];
                        pos <= t.1 && t.1 < t.2 <= n
                    } by {
                        assert(items[i] == rest[i]);
                    }
                    assert forall|i: int| 0 <= i && i + 1 < items.len() implies (#[trigger] items[i]).2
                        <= items[i + 1].1 by {
                        assert(rest.len() == items.len());
                        assert(items[i] == rest[i]);
                        assert(items[i + 1] == rest[i + 1]);
                        assert(rest[i].2 <= rest[i + 1].1);
                    }
                }
            },
            None => {
                match first_token(pats, hay, pos, 0) {
                    Some((k, e)) => {
                        if pos < e <= n {
                            lemma_lexer_positions_increase(skips, pats, hay, e);
                            if lex_spec(skips, pats, hay, e) is Ok {
                                let rest = lex_spec(skips, pats, hay, e)->Ok_0;
                                let items = lex_spec(skips, pats, hay, pos)->Ok_0;
                                assert(items == seq![(k, pos, e)] + rest);
                                assert forall|i: int| 0 <= i < items.len() implies {
                                    let t = #[trigger] items[i];
                                    pos <= t.1 && t.1 < t.2 <= n
                                } by {
                                    let added = seq![(k, pos, e)] + rest;
                                    assert(items[i] == added[i]);
                                    if i == 0 {
                                        assert(added[0] == (k, pos, e));
                                    } else {
                                        assert(added[i] == rest[i - 1]);
                                        assert(pos <= e);
                                        assert(e <= rest[i - 1].1);
                                        assert(rest[i - 1].1 < rest[i - 1].2 <= n);
                                    }
                                }
                                assert forall|i: int| 0 <= i && i + 1 < items.len() implies (
                                #[trigger] items[i]).2 <= items[i + 1].1 by {
                                    let added = seq![(k, pos, e)] + rest;
                                    assert(items[i] == added[i]);
                                    assert(items[i + 1] == added[i + 1]);
                                    if i == 0 {
                                        assert(added[1] == rest[0]);
                                        assert(e <= rest[0].1);
                                    } else {
                                        assert(added[i] == rest[i - 1]);
                                        assert(added[i + 1] == rest[i]);
                                        assert(rest[i - 1].2 <= rest[i].1);
                                    }
                                }
                            }
                        }
                    },
                    None => {},
                }
            },
        }
    }
}

} // verus!
