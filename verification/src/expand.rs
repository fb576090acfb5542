//! The expander: turns a parsed rule into the full cartesian expansion,
//! choosing for each placeholder, in order, one item from its element's
//! set, interleaved with the literal chunks. An earlier placeholder
//! varies slower than a later one; within one placeholder the items
//! come in their declared order.

use vstd::prelude::*;
use vstd::string::*;
use crate::config::DgConfig;
use crate::config::ElemV;
use crate::config::spec_lookup;
use crate::parse::Tok;
use crate::parse::Token;

verus! {

/// The item set a placeholder resolves to: the first element declared
/// with its code, degrading to the one-member set holding the empty
/// string when no element has the code.
pub open spec fn spec_resolve(elems: Seq<ElemV>, code: Seq<char>) -> Seq<Seq<char>> {
    match spec_lookup(elems, code) {
        Some(items) => items,
        None => seq![Seq::<char>::empty()],
    }
}

/// Every tail prefixed with `p`, in order.
pub open spec fn prefix_all(p: Seq<char>, tails: Seq<Seq<char>>) -> Seq<Seq<char>> {
    tails.map_values(|t: Seq<char>| p + t)
}

/// The cartesian product of an item set and a tail set, as strings:
/// for each item in order, that item prefixed to every tail in order.
pub open spec fn cross(items: Seq<Seq<char>>, tails: Seq<Seq<char>>) -> Seq<Seq<char>>
    decreases items.len(),
{
    if items.len() == 0 {
        Seq::empty()
    } else {
        prefix_all(items[0], tails) + cross(items.drop_first(), tails)
    }
}

/// The full expansion of a token sequence: the one empty candidate for
/// no tokens; a literal prefixes every candidate of the rest; a
/// placeholder crosses its resolved item set with the rest.
pub open spec fn spec_expand(toks: Seq<Tok>, elems: Seq<ElemV>) -> Seq<Seq<char>>
    decreases toks.len(),
{
    if toks.len() == 0 {
        seq![Seq::<char>::empty()]
    } else {
        match toks[0] {
            Tok::Literal(s) => prefix_all(s, spec_expand(toks.drop_first(), elems)),
            Tok::Placeholder(c) => cross(
                spec_resolve(elems, c),
                spec_expand(toks.drop_first(), elems),
            ),
        }
    }
}

/// The number of candidates [`spec_expand`] yields: the product of the
/// resolved item-set sizes over the placeholders.
pub open spec fn spec_expand_count(toks: Seq<Tok>, elems: Seq<ElemV>) -> nat
    decreases toks.len(),
{
    if toks.len() == 0 {
        1
    } else {
        match toks[0] {
            Tok::Literal(_) => spec_expand_count(toks.drop_first(), elems),
            Tok::Placeholder(c) => spec_resolve(elems, c).len() * spec_expand_count(
                toks.drop_first(),
                elems,
            ),
        }
    }
}

/// A cartesian product has one entry per item-tail pair.
pub proof fn lemma_cross_len(items: Seq<Seq<char>>, tails: Seq<Seq<char>>)
    ensures
        cross(items, tails).len() == items.len() * tails.len(),
    decreases items.len(),
{
    if items.len() == 0 {
    } else {
        lemma_cross_len(items.drop_first(), tails);
        assert(items.len() * tails.len() == tails.len() + (items.len() - 1) * tails.len())
            by (nonlinear_arith);
    }
}

/// The raw expansion of a rule has exactly `n1 * n2 * ... * nk`
/// candidates, where the `ni` are the resolved item-set sizes of its
/// placeholders in order.
pub proof fn lemma_expand_count(toks: Seq<Tok>, elems: Seq<ElemV>)
    ensures
        spec_expand(toks, elems).len() == spec_expand_count(toks, elems),
    decreases toks.len(),
{
    if toks.len() == 0 {
    } else {
        lemma_expand_count(toks.drop_first(), elems);
        match toks[0] {
            Tok::Literal(_) => {},
            Tok::Placeholder(c) => {
                lemma_cross_len(spec_resolve(elems, c), spec_expand(toks.drop_first(), elems));
            },
        }
    }
}

/// The literal text of a token sequence with every placeholder replaced
/// by the empty string.
pub open spec fn lit_concat(toks: Seq<Tok>) -> Seq<char>
    decreases toks.len(),
{
    if toks.len() == 0 {
        Seq::empty()
    } else {
        match toks[0] {
            Tok::Literal(s) => s + lit_concat(toks.drop_first()),
            Tok::Placeholder(_) => lit_concat(toks.drop_first()),
        }
    }
}

/// When every placeholder of a token sequence resolves to the one-member
/// set holding the empty string — an element declared with zero items,
/// or an undeclared code — the expansion is exactly the surrounding
/// literal text with each placeholder replaced by the empty string.
pub proof fn lemma_expand_empty_items(toks: Seq<Tok>, elems: Seq<ElemV>)
    requires
        forall|k: int|
            0 <= k < toks.len() ==> match #[trigger] toks[k] {
                Tok::Placeholder(c) => spec_resolve(elems, c) == seq![Seq::<char>::empty()],
                Tok::Literal(_) => true,
            },
    ensures
        spec_expand(toks, elems) == seq![lit_concat(toks)],
    decreases toks.len(),
{
    if toks.len() == 0 {
        assert(spec_expand(toks, elems) =~= seq![lit_concat(toks)]);
    } else {
        let rest = toks.drop_first();
        assert(forall|k: int| 0 <= k < rest.len() ==> rest[k] == toks[k + 1]);
        lemma_expand_empty_items(rest, elems);
        match toks[0] {
            Tok::Literal(s) => {
                assert(prefix_all(s, seq![lit_concat(rest)]) =~= seq![s + lit_concat(rest)]);
                assert(spec_expand(toks, elems) =~= seq![lit_concat(toks)]);
            },
            Tok::Placeholder(c) => {
                assert(toks[0] matches Tok::Placeholder(c2) && c2 == c);
                assert(spec_resolve(elems, c) == seq![Seq::<char>::empty()]);
                assert(seq![Seq::<char>::empty()].drop_first()
                    =~= Seq::<Seq<char>>::empty());
                assert(cross(Seq::<Seq<char>>::empty(), seq![lit_concat(rest)])
                    =~= Seq::<Seq<char>>::empty());
                assert(cross(seq![Seq::<char>::empty()], seq![lit_concat(rest)])
                    =~= prefix_all(Seq::<char>::empty(), seq![lit_concat(rest)]));
                assert(Seq::<char>::empty() + lit_concat(rest) =~= lit_concat(rest));
                assert(prefix_all(Seq::<char>::empty(), seq![lit_concat(rest)]) =~= seq![
                    lit_concat(rest),
                ]);
                assert(spec_expand(toks, elems) =~= seq![lit_concat(toks)]);
            },
        }
    }
}

/// A rule in which no known code is spelled out anywhere — a rule with
/// no placeholders — expands to exactly one candidate: the literal rule
/// text itself.
pub proof fn lemma_expand_literal_rule(
    rule: Seq<char>,
    codes: Seq<Seq<char>>,
    elems: Seq<ElemV>,
)
    requires
        forall|k: int| 0 <= k < rule.len() ==> !crate::parse::match_at(rule, codes, k),
    ensures
        spec_expand(crate::parse::spec_parse(rule, codes), elems) == seq![rule],
{
    crate::parse::lemma_first_match_is(rule, codes, 0, rule.len() as int);
    if rule.len() == 0 {
        assert(crate::parse::spec_parse(rule, codes) =~= Seq::<Tok>::empty());
        assert(rule =~= Seq::<char>::empty());
        assert(seq![Seq::<char>::empty()] =~= seq![rule]);
    } else {
        let toks = crate::parse::spec_parse(rule, codes);
        assert(toks == seq![Tok::Literal(rule.subrange(0, rule.len() as int))]);
        assert(rule.subrange(0, rule.len() as int) =~= rule);
        assert(toks.drop_first() =~= Seq::<Tok>::empty());
        assert(spec_expand(toks.drop_first(), elems) == seq![Seq::<char>::empty()]);
        assert(prefix_all(rule, seq![Seq::<char>::empty()]) =~= seq![rule + Seq::<char>::empty()]);
        assert(rule + Seq::<char>::empty() =~= rule);
        assert(spec_expand(toks, elems) =~= seq![rule]);
    }
}

/// The item set a placeholder's code resolves to, per [`spec_resolve`]:
/// the first element declared with the code, or the one-member set
/// holding the empty string when none is.
pub fn resolve_items(conf: &DgConfig, code: &str) -> (items: Vec<String>)
    ensures
        items.deep_view() == spec_resolve(conf@.element, code@),
{
    match conf.get_element_item(code) {
        Some(items) => items,
        None => {
            let mut items: Vec<String> = Vec::new();
            items.push(String::new());
            proof {
                assert(items.deep_view() =~= seq![Seq::<char>::empty()]);
            }
            items
        },
    }
}

/// Expands a parsed rule against the declared elements, per
/// [`spec_expand`]: all strings reachable by choosing one item for each
/// placeholder in order, interleaved with the literal chunks.
pub fn expand(tokens: &Vec<Token>, conf: &DgConfig) -> (out: Vec<String>)
    ensures
        out.deep_view() == spec_expand(tokens.deep_view(), conf@.element),
{
    let ghost toks = tokens.deep_view();
    let ghost elems = conf@.element;
    let mut out: Vec<String> = Vec::new();
    out.push(String::new());
    proof {
        assert(toks.skip(toks.len() as int) =~= Seq::<Tok>::empty());
        assert(out.deep_view() =~= seq![Seq::<char>::empty()]);
    }
    let mut i: usize = tokens.len();
    while i > 0
        invariant
            toks == tokens.deep_view(),
            toks.len() == tokens@.len(),
            elems == conf@.element,
            0 <= i <= toks.len(),
            out.deep_view() == spec_expand(toks.skip(i as int), elems),
        decreases i,
    {
        i = i - 1;
        proof {
            assert(toks.skip(i as int)[0] == toks[i as int]);
            assert(toks.skip(i as int).drop_first() =~= toks.skip(i + 1));
        }
        let ghost tails = out.deep_view();
        match &tokens[i] {
            Token::Literal(s) => {
                proof {
                    assert(toks[i as int] == Tok::Literal(s@));
                }
                let mut newout: Vec<String> = Vec::new();
                let mut k: usize = 0;
                proof {
                    assert(newout.deep_view() =~= prefix_all(s@, tails).take(0));
                }
                while k < out.len()
                    invariant
                        tails == out.deep_view(),
                        tails.len() == out@.len(),
                        0 <= k <= tails.len(),
                        newout.deep_view() == prefix_all(s@, tails).take(k as int),
                    decreases tails.len() - k,
                {
                    let ghost old_new = newout.deep_view();
                    let mut x = s.clone();
                    x.append(out[k].as_str());
                    proof {
                        assert(x@ == s@ + tails[k as int]);
                    }
                    newout.push(x);
                    proof {
                        assert(newout.deep_view() =~= old_new.push(s@ + tails[k as int]));
                        assert(newout.deep_view() =~= prefix_all(s@, tails).take(k + 1));
                    }
                    k = k + 1;
                }
                proof {
                    assert(prefix_all(s@, tails).take(tails.len() as int)
                        =~= prefix_all(s@, tails));
                }
                out = newout;
            },
            Token::Placeholder(c) => {
                proof {
                    assert(toks[i as int] == Tok::Placeholder(c@));
                }
                let items = resolve_items(conf, c.as_str());
                let ghost iv = items.deep_view();
                let mut newout: Vec<String> = Vec::new();
                let mut j: usize = 0;
                proof {
                    assert(iv.skip(0) =~= iv);
                    assert(newout.deep_view() + cross(iv.skip(0), tails) =~= cross(iv, tails));
                }
                while j < items.len()
                    invariant
                        iv == items.deep_view(),
                        iv.len() == items@.len(),
                        tails == out.deep_view(),
                        tails.len() == out@.len(),
                        0 <= j <= iv.len(),
                        cross(iv, tails) == newout.deep_view() + cross(iv.skip(j as int), tails),
                    decreases iv.len() - j,
                {
                    proof {
                        assert(iv.skip(j as int)[0] == iv[j as int]);
                        assert(iv.skip(j as int).drop_first() =~= iv.skip(j + 1));
                    }
                    let ghost base = newout.deep_view();
                    let mut k: usize = 0;
                    while k < out.len()
                        invariant
                            iv == items.deep_view(),
                            iv.len() == items@.len(),
                            tails == out.deep_view(),
                            tails.len() == out@.len(),
                            0 <= j < iv.len(),
                            0 <= k <= tails.len(),
                            newout.deep_view() == base + prefix_all(iv[j as int], tails).take(
                                k as int,
                            ),
                        decreases tails.len() - k,
                    {
                        let ghost old_new = newout.deep_view();
                        let mut x = items[j].clone();
                        x.append(out[k].as_str());
                        proof {
                            assert(x@ == iv[j as int] + tails[k as int]);
                        }
                        newout.push(x);
                        proof {
                            assert(newout.deep_view() =~= old_new.push(
                                iv[j as int] + tails[k as int],
                            ));
                            assert(base + prefix_all(iv[j as int], tails).take(k as int)
                                + seq![iv[j as int] + tails[k as int]]
                                =~= base + prefix_all(iv[j as int], tails).take(k + 1));
                            assert(newout.deep_view() =~= base + prefix_all(
                                iv[j as int],
                                tails,
                            ).take(k + 1));
                        }
                        k = k + 1;
                    }
                    proof {
                        assert(prefix_all(iv[j as int], tails).take(tails.len() as int)
                            =~= prefix_all(iv[j as int], tails));
                        assert(base + cross(iv.skip(j as int), tails) =~= newout.deep_view()
                            + cross(iv.skip(j + 1), tails));
                    }
                    j = j + 1;
                }
                proof {
                    assert(cross(iv.skip(iv.len() as int), tails) =~= Seq::<Seq<char>>::empty());
                    assert(newout.deep_view() + cross(iv.skip(iv.len() as int), tails)
                        =~= newout.deep_view());
                }
                out = newout;
            },
        }
    }
    proof {
        assert(toks.skip(0) =~= toks);
    }
    out
}

} // verus!
