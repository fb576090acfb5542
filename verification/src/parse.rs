//! The rule parser: scans a template string left to right and yields
//! literal chunks and placeholder references. A placeholder is a
//! `{code}` occurrence whose code is one of the known element codes;
//! any other text, including braces around an unknown code, passes
//! through as literal characters.

use vstd::prelude::*;
use vstd::string::*;
use crate::config::is_word_char;
use crate::config::valid_code;

verus! {

/// One parsed segment of a rule: a literal text chunk or a placeholder
/// referencing an element by code.
#[derive(Debug, Clone, PartialEq, Eq)]
pub enum Token {
    Literal(String),
    Placeholder(String),
}

/// Mathematical model of a [`Token`].
pub ghost enum Tok {
    Literal(Seq<char>),
    Placeholder(Seq<char>),
}

impl View for Token {
    type V = Tok;

    open spec fn view(&self) -> Tok {
        match self {
            Token::Literal(s) => Tok::Literal(s.view()),
            Token::Placeholder(s) => Tok::Placeholder(s.view()),
        }
    }
}

impl DeepView for Token {
    type V = Tok;

    open spec fn deep_view(&self) -> Tok {
        self.view()
    }
}

/// Every known code is a valid element code.
pub open spec fn codes_valid(codes: Seq<Seq<char>>) -> bool {
    forall|k: int| 0 <= k < codes.len() ==> valid_code(#[trigger] codes[k])
}

/// The code `c` is spelled out as the placeholder `{c}` at position `i`
/// of the rule.
pub open spec fn placeholder_at(rule: Seq<char>, i: int, c: Seq<char>) -> bool {
    &&& 0 <= i
    &&& i + c.len() + 2 <= rule.len()
    &&& rule[i] == '{'
    &&& rule[i + c.len() + 1] == '}'
    &&& rule.subrange(i + 1, i + 1 + c.len() as int) == c
}

/// Some known code is spelled out as a placeholder at position `i`.
pub open spec fn match_at(rule: Seq<char>, codes: Seq<Seq<char>>, i: int) -> bool {
    exists|c: Seq<char>| #[trigger] codes.contains(c) && placeholder_at(rule, i, c)
}

/// The known code spelled out at position `i` (meaningful only when
/// [`match_at`] holds there; unique because codes hold no braces).
pub open spec fn code_at(rule: Seq<char>, codes: Seq<Seq<char>>, i: int) -> Seq<char> {
    choose|c: Seq<char>| #[trigger] codes.contains(c) && placeholder_at(rule, i, c)
}

/// The first position at or after `i` where a known code is spelled out
/// as a placeholder, or the rule's length if there is none.
pub open spec fn first_match_from(rule: Seq<char>, codes: Seq<Seq<char>>, i: int) -> int
    decreases rule.len() - i,
{
    if i < 0 || i >= rule.len() {
        rule.len() as int
    } else if match_at(rule, codes, i) {
        i
    } else {
        first_match_from(rule, codes, i + 1)
    }
}

/// Two valid codes spelled out at the same position are the same code:
/// the shorter one would put its closing brace inside the longer one,
/// and a code never contains a brace.
pub proof fn lemma_code_unique(rule: Seq<char>, i: int, c1: Seq<char>, c2: Seq<char>)
    requires
        valid_code(c1),
        valid_code(c2),
        placeholder_at(rule, i, c1),
        placeholder_at(rule, i, c2),
    ensures
        c1 == c2,
{
    assert('}' as u32 == 125);
    if c1.len() < c2.len() {
        assert(c2[c1.len() as int] == rule[i + 1 + c1.len()]);
        assert(is_word_char(c2[c1.len() as int]));
        assert(false);
    } else if c2.len() < c1.len() {
        assert(c1[c2.len() as int] == rule[i + 1 + c2.len()]);
        assert(is_word_char(c1[c2.len() as int]));
        assert(false);
    } else {
        assert(c1 =~= c2);
    }
}

/// Where [`first_match_from`] lands: at or after `i`, within the rule,
/// on a match position when inside the rule, with no match before it.
pub proof fn lemma_first_match_props(rule: Seq<char>, codes: Seq<Seq<char>>, i: int)
    requires
        0 <= i <= rule.len(),
    ensures
        i <= first_match_from(rule, codes, i) <= rule.len(),
        first_match_from(rule, codes, i) < rule.len() ==> match_at(
            rule,
            codes,
            first_match_from(rule, codes, i),
        ),
        forall|k: int|
            i <= k < first_match_from(rule, codes, i) ==> !match_at(rule, codes, k),
    decreases rule.len() - i,
{
    if i < rule.len() && !match_at(rule, codes, i) {
        lemma_first_match_props(rule, codes, i + 1);
    }
}

/// [`first_match_from`] is pinned by its characterization: if nothing
/// matches in `[i, m)` and `m` is a match or the rule's end, the first
/// match from `i` is `m`.
pub proof fn lemma_first_match_is(rule: Seq<char>, codes: Seq<Seq<char>>, i: int, m: int)
    requires
        0 <= i <= m <= rule.len(),
        forall|k: int| i <= k < m ==> !match_at(rule, codes, k),
        m < rule.len() ==> match_at(rule, codes, m),
    ensures
        first_match_from(rule, codes, i) == m,
    decreases m - i,
{
    if i < m {
        lemma_first_match_is(rule, codes, i + 1, m);
    }
}

/// The tokens of the rule from position `i` on: the literal chunk up to
/// the next placeholder (omitted when empty), the placeholder itself,
/// and the rest; or the remaining text as one literal when no known
/// code occurs any more.
pub open spec fn spec_parse_from(rule: Seq<char>, codes: Seq<Seq<char>>, i: int) -> Seq<Tok>
    decreases rule.len() - i,
    via spec_parse_from_decreases
{
    if i < 0 || i >= rule.len() {
        Seq::empty()
    } else {
        let m = first_match_from(rule, codes, i);
        let lit: Seq<Tok> = if m > i {
            seq![Tok::Literal(rule.subrange(i, m))]
        } else {
            Seq::empty()
        };
        if m >= rule.len() {
            lit
        } else {
            let c = code_at(rule, codes, m);
            lit + seq![Tok::Placeholder(c)] + spec_parse_from(rule, codes, m + c.len() + 2)
        }
    }
}

#[via_fn]
proof fn spec_parse_from_decreases(rule: Seq<char>, codes: Seq<Seq<char>>, i: int) {
    if 0 <= i < rule.len() {
        lemma_first_match_props(rule, codes, i);
        let m = first_match_from(rule, codes, i);
        if m < rule.len() {
            let c = code_at(rule, codes, m);
            assert(codes.contains(c) && placeholder_at(rule, m, c));
        }
    }
}

/// The token sequence of a whole rule against the known codes.
pub open spec fn spec_parse(rule: Seq<char>, codes: Seq<Seq<char>>) -> Seq<Tok> {
    spec_parse_from(rule, codes, 0)
}

/// Parsing is deterministic and free of side effects: two parses of
/// the same rule against the same known codes yield identical token
/// sequences. [`parse`] pins its result to [`spec_parse`], so any two
/// of its results coincide.
pub proof fn lemma_parse_deterministic(
    rule: Seq<char>,
    codes: Seq<Seq<char>>,
    t1: Seq<Tok>,
    t2: Seq<Tok>,
)
    requires
        t1 == spec_parse(rule, codes),
        t2 == spec_parse(rule, codes),
    ensures
        t1 == t2,
{
}

/// Decides [`match_at`] at position `i` and, on a match, returns the
/// length of the code spelled out there.
fn find_match(rule: &str, n: usize, codes: &Vec<String>, i: usize) -> (r: Option<usize>)
    requires
        codes_valid(codes.deep_view()),
        n == rule@.len(),
        i < n,
    ensures
        match r {
            Some(cl) => {
                &&& match_at(rule@, codes.deep_view(), i as int)
                &&& code_at(rule@, codes.deep_view(), i as int).len() == cl
                &&& i + cl + 2 <= n
            },
            None => !match_at(rule@, codes.deep_view(), i as int),
        },
{
    let ghost rv = rule@;
    let ghost cdv = codes.deep_view();
    let c0 = rule.get_char(i);
    if c0 != '{' {
        proof {
            assert forall|c: Seq<char>| !(cdv.contains(c) && placeholder_at(rv, i as int, c)) by {}
        }
        return None;
    }
    let mut j: usize = i + 1;
    while j < n
        invariant
            codes_valid(cdv),
            cdv == codes.deep_view(),
            rv == rule@,
            n == rv.len(),
            i < n,
            rv[i as int] == '{',
            i + 1 <= j <= n,
            forall|k: int| i + 1 <= k < j ==> is_word_char(#[trigger] rv[k]),
        decreases n - j,
    {
        let c = rule.get_char(j);
        let u = c as u32;
        if c == '}' {
            let inner = rule.substring_char(i + 1, j);
            let inner_string = inner.to_owned();
            let mut k: usize = 0;
            while k < codes.len()
                invariant
                    codes_valid(cdv),
                    cdv == codes.deep_view(),
                    cdv.len() == codes@.len(),
                    rv == rule@,
                    n == rv.len(),
                    i < n,
                    rv[i as int] == '{',
                    i + 1 <= j < n,
                    rv[j as int] == '}',
                    forall|t: int| i + 1 <= t < j ==> is_word_char(#[trigger] rv[t]),
                    0 <= k <= codes@.len(),
                    inner_string@ == rv.subrange(i + 1, j as int),
                    forall|t: int| 0 <= t < k ==> #[trigger] cdv[t] != inner_string@,
                decreases codes@.len() - k,
            {
                if inner_string == codes[k] {
                    proof {
                        let c = cdv[k as int];
                        assert(c == rv.subrange(i + 1, j as int));
                        assert(c.len() == j - i - 1);
                        assert(placeholder_at(rv, i as int, c));
                        assert(cdv.contains(c));
                        assert(match_at(rv, cdv, i as int));
                        let c2 = code_at(rv, cdv, i as int);
                        assert(cdv.contains(c2) && placeholder_at(rv, i as int, c2));
                        let t = choose|t: int| 0 <= t < cdv.len() && cdv[t] == c2;
                        assert(valid_code(c2));
                        lemma_code_unique(rv, i as int, c, c2);
                    }
                    return Some(j - i - 1);
                }
                k = k + 1;
            }
            proof {
                assert('}' as u32 == 125);
                assert forall|c: Seq<char>| !(cdv.contains(c) && placeholder_at(
                    rv,
                    i as int,
                    c,
                )) by {
                    if cdv.contains(c) && placeholder_at(rv, i as int, c) {
                        let t = choose|t: int| 0 <= t < cdv.len() && cdv[t] == c;
                        assert(valid_code(c));
                        let p = i + 1 + c.len() as int;
                        if p < j {
                            assert(is_word_char(rv[p]));
                            assert(false);
                        } else if p > j {
                            assert(c[j - i - 1] == rv[j as int]);
                            assert(is_word_char(c[j - i - 1]));
                            assert(false);
                        } else {
                            assert(c =~= rv.subrange(i + 1, j as int));
                            assert(false);
                        }
                    }
                }
            }
            return None;
        }
        if !((97 <= u && u <= 122) || (65 <= u && u <= 90) || (48 <= u && u <= 57) || u == 95) {
            proof {
                assert('}' as u32 == 125);
                assert(!is_word_char(rv[j as int]));
                assert forall|c: Seq<char>| !(cdv.contains(c) && placeholder_at(
                    rv,
                    i as int,
                    c,
                )) by {
                    if cdv.contains(c) && placeholder_at(rv, i as int, c) {
                        let t = choose|t: int| 0 <= t < cdv.len() && cdv[t] == c;
                        assert(valid_code(c));
                        let p = i + 1 + c.len() as int;
                        if p < j {
                            assert(is_word_char(rv[p]));
                            assert(false);
                        } else if p > j {
                            assert(c[j - i - 1] == rv[j as int]);
                            assert(is_word_char(c[j - i - 1]));
                            assert(false);
                        } else {
                            assert(rv[j as int] == '}');
                            assert(false);
                        }
                    }
                }
            }
            return None;
        }
        j = j + 1;
    }
    proof {
        assert('}' as u32 == 125);
        assert forall|c: Seq<char>| !(cdv.contains(c) && placeholder_at(rv, i as int, c)) by {
            if cdv.contains(c) && placeholder_at(rv, i as int, c) {
                let p = i + 1 + c.len() as int;
                assert(rv[p] == '}');
                assert(is_word_char(rv[p]));
                assert(false);
            }
        }
    }
    None
}

/// Parses a rule against the known element codes, per [`spec_parse`]:
/// each `{code}` occurrence of a known code becomes a placeholder
/// token, every span between them a literal token (omitted when
/// empty). With no known codes, a non-empty rule is one literal token.
pub fn parse(rule: &str, codes: &Vec<String>) -> (tokens: Vec<Token>)
    requires
        codes_valid(codes.deep_view()),
    ensures
        tokens.deep_view() == spec_parse(rule@, codes.deep_view()),
{
    let ghost rv = rule@;
    let ghost cdv = codes.deep_view();
    let n = rule.unicode_len();
    let mut tokens: Vec<Token> = Vec::new();
    let mut lit_start: usize = 0;
    let mut i: usize = 0;
    proof {
        assert(tokens.deep_view() + spec_parse_from(rv, cdv, 0) =~= spec_parse_from(rv, cdv, 0));
    }
    while i < n
        invariant
            codes_valid(cdv),
            cdv == codes.deep_view(),
            n == rv.len(),
            rv == rule@,
            0 <= lit_start <= i <= n,
            forall|k: int| lit_start <= k < i ==> !match_at(rv, cdv, k),
            spec_parse(rv, cdv) == tokens.deep_view() + spec_parse_from(rv, cdv, lit_start as int),
        decreases n - i,
    {
        match find_match(rule, n, codes, i) {
            Some(cl) => {
                proof {
                    lemma_first_match_is(rv, cdv, lit_start as int, i as int);
                }
                let ghost old_tokens = tokens.deep_view();
                let ghost c = code_at(rv, cdv, i as int);
                proof {
                    assert(cdv.contains(c) && placeholder_at(rv, i as int, c));
                }
                if i > lit_start {
                    let lit = rule.substring_char(lit_start, i).to_owned();
                    tokens.push(Token::Literal(lit));
                    proof {
                        assert(tokens.deep_view() =~= old_tokens.push(
                            Tok::Literal(rv.subrange(lit_start as int, i as int)),
                        ));
                    }
                }
                let ghost mid_tokens = tokens.deep_view();
                let code = rule.substring_char(i + 1, i + 1 + cl).to_owned();
                tokens.push(Token::Placeholder(code));
                proof {
                    assert(code@ == c);
                    assert(tokens.deep_view() =~= mid_tokens.push(Tok::Placeholder(c)));
                    let lit: Seq<Tok> = if i > lit_start {
                        seq![Tok::Literal(rv.subrange(lit_start as int, i as int))]
                    } else {
                        Seq::empty()
                    };
                    assert(spec_parse_from(rv, cdv, lit_start as int) == lit + seq![
                        Tok::Placeholder(c),
                    ] + spec_parse_from(rv, cdv, i + c.len() + 2));
                    assert(old_tokens + spec_parse_from(rv, cdv, lit_start as int)
                        =~= tokens.deep_view() + spec_parse_from(rv, cdv, i + cl + 2));
                }
                i = i + cl + 2;
                lit_start = i;
            },
            None => {
                i = i + 1;
            },
        }
    }
    if lit_start < n {
        proof {
            lemma_first_match_is(rv, cdv, lit_start as int, n as int);
        }
        let ghost old_tokens = tokens.deep_view();
        let lit = rule.substring_char(lit_start, n).to_owned();
        tokens.push(Token::Literal(lit));
        proof {
            assert(spec_parse_from(rv, cdv, lit_start as int) == seq![
                Tok::Literal(rv.subrange(lit_start as int, n as int)),
            ]);
            assert(tokens.deep_view() =~= old_tokens.push(
                Tok::Literal(rv.subrange(lit_start as int, n as int)),
            ));
            assert(old_tokens + spec_parse_from(rv, cdv, lit_start as int)
                =~= tokens.deep_view());
        }
    } else {
        proof {
            assert(spec_parse_from(rv, cdv, lit_start as int) =~= Seq::<Tok>::empty());
            assert(tokens.deep_view() + spec_parse_from(rv, cdv, lit_start as int)
                =~= tokens.deep_view());
        }
    }
    tokens
}

} // verus!
