//! Filter, dedup and run orchestration: each rule is parsed against the
//! declared element codes, expanded, and every candidate within the
//! length bounds that was not emitted before — by any rule — is
//! accepted, in order. The accepted strings are the run's output, one
//! per line at the sink.

use vstd::prelude::*;
use vstd::string::*;
use crate::config::ConfV;
use crate::config::DgConfig;
use crate::config::ElemV;
use crate::config::LengthFilter;
use crate::config::contains_string;
use crate::config::spec_codes;
use crate::config::valid_codes;
use crate::expand::expand;
use crate::expand::spec_expand;
use crate::parse::parse;
use crate::parse::spec_parse;

verus! {

/// A candidate passes the length filter: its character count, plus one
/// for the line terminator the sink appends, lies within the inclusive
/// bounds.
pub open spec fn in_range(s: Seq<char>, f: LengthFilter) -> bool {
    f.min <= s.len() + 1 <= f.max
}

/// The candidates that survive filtering and deduplication, in order:
/// a candidate is kept iff it passes the length filter and is neither
/// in `seen` nor kept earlier in the stream.
pub open spec fn spec_sift(
    cands: Seq<Seq<char>>,
    f: LengthFilter,
    seen: Seq<Seq<char>>,
) -> Seq<Seq<char>>
    decreases cands.len(),
{
    if cands.len() == 0 {
        Seq::empty()
    } else if in_range(cands[0], f) && !seen.contains(cands[0]) {
        seq![cands[0]] + spec_sift(cands.drop_first(), f, seen.push(cands[0]))
    } else {
        spec_sift(cands.drop_first(), f, seen)
    }
}

/// The raw expansion of one rule against the declared elements, parsed
/// with the valid declared codes.
pub open spec fn rule_candidates(rule: Seq<char>, elems: Seq<ElemV>) -> Seq<Seq<char>> {
    spec_expand(spec_parse(rule, spec_codes(elems)), elems)
}

/// The raw candidates of all rules, in declaration order.
pub open spec fn all_candidates(rules: Seq<Seq<char>>, elems: Seq<ElemV>) -> Seq<Seq<char>>
    decreases rules.len(),
{
    if rules.len() == 0 {
        Seq::empty()
    } else {
        rule_candidates(rules[0], elems) + all_candidates(rules.drop_first(), elems)
    }
}

/// A whole run's output: every rule expanded in declaration order, the
/// stream filtered by length and deduplicated globally across rules.
pub open spec fn spec_generate(c: ConfV) -> Seq<Seq<char>> {
    spec_sift(all_candidates(c.rule, c.element), c.filter, Seq::empty())
}

/// Check-and-insert acceptance: the candidate is accepted iff its
/// length (plus one for the line terminator) lies within the inclusive
/// bounds and it is not yet in `seen`; on acceptance, and only then, it
/// is added to `seen`. A string of length exactly `min - 1` or exactly
/// `max + 1` (terminator counted) is rejected.
pub fn accept(candidate: &String, filter: &LengthFilter, seen: &mut Vec<String>) -> (r: bool)
    ensures
        r == (in_range(candidate@, *filter) && !old(seen).deep_view().contains(candidate@)),
        final(seen).deep_view() == if r {
            old(seen).deep_view().push(candidate@)
        } else {
            old(seen).deep_view()
        },
{
    let l = candidate.as_str().unicode_len();
    let lo_ok = filter.min == 0 || l >= filter.min - 1;
    let hi_ok = filter.max >= 1 && l <= filter.max - 1;
    if lo_ok && hi_ok {
        if !contains_string(seen, candidate) {
            let ghost old_seen = seen.deep_view();
            seen.push(candidate.clone());
            proof {
                assert(seen.deep_view() =~= old_seen.push(candidate@));
            }
            return true;
        }
    }
    false
}

/// Runs a whole configuration, per [`spec_generate`]: parses each rule
/// in declaration order against the valid declared element codes,
/// expands it, and accepts each candidate that passes the length filter
/// and was not emitted before by any rule. Returns the accepted
/// strings in acceptance order.
pub fn generate_dict(conf: &DgConfig) -> (accepted: Vec<String>)
    ensures
        accepted.deep_view() == spec_generate(conf@),
{
    let ghost elems = conf@.element;
    let ghost rules = conf@.rule;
    let codes = valid_codes(&conf.element);
    let mut accepted: Vec<String> = Vec::new();
    let mut ri: usize = 0;
    proof {
        assert(rules.skip(0) =~= rules);
        assert(accepted.deep_view() =~= Seq::<Seq<char>>::empty());
    }
    while ri < conf.rule.len()
        invariant
            elems == conf@.element,
            rules == conf@.rule,
            rules.len() == conf.rule@.len(),
            codes.deep_view() == spec_codes(elems),
            crate::parse::codes_valid(codes.deep_view()),
            0 <= ri <= rules.len(),
            spec_generate(conf@) == accepted.deep_view() + spec_sift(
                all_candidates(rules.skip(ri as int), elems),
                conf.filter,
                accepted.deep_view(),
            ),
        decreases rules.len() - ri,
    {
        proof {
            assert(rules.skip(ri as int)[0] == rules[ri as int]);
            assert(rules.skip(ri as int).drop_first() =~= rules.skip(ri + 1));
        }
        let tokens = parse(conf.rule[ri].as_str(), &codes);
        let cands = expand(&tokens, conf);
        let ghost cv = cands.deep_view();
        let ghost tail = all_candidates(rules.skip(ri + 1), elems);
        proof {
            assert(cv == rule_candidates(rules[ri as int], elems));
            assert(all_candidates(rules.skip(ri as int), elems) == cv + tail);
            assert(cv.skip(0) =~= cv);
            assert(cv.skip(0) + tail =~= cv + tail);
        }
        let mut ci: usize = 0;
        while ci < cands.len()
            invariant
                elems == conf@.element,
                cv == cands.deep_view(),
                cv.len() == cands@.len(),
                tail == all_candidates(rules.skip(ri + 1), elems),
                0 <= ci <= cv.len(),
                spec_generate(conf@) == accepted.deep_view() + spec_sift(
                    cv.skip(ci as int) + tail,
                    conf.filter,
                    accepted.deep_view(),
                ),
            decreases cv.len() - ci,
        {
            let ghost rem = cv.skip(ci as int) + tail;
            proof {
                assert(rem[0] == cv[ci as int]);
                assert(rem.drop_first() =~= cv.skip(ci + 1) + tail);
            }
            accept(&cands[ci], &conf.filter, &mut accepted);
            ci = ci + 1;
        }
        proof {
            assert(cv.skip(cv.len() as int) =~= Seq::<Seq<char>>::empty());
            assert(cv.skip(cv.len() as int) + tail =~= tail);
        }
        ri = ri + 1;
    }
    proof {
        assert(rules.skip(rules.len() as int) =~= Seq::<Seq<char>>::empty());
        assert(accepted.deep_view() + spec_sift(
            all_candidates(rules.skip(rules.len() as int), elems),
            conf.filter,
            accepted.deep_view(),
        ) =~= accepted.deep_view());
    }
    accepted
}

/// The length filter is inclusive on both ends: a candidate that sits
/// exactly on a bound (terminator counted) passes; one character
/// beyond either bound fails.
pub proof fn lemma_filter_inclusive(f: LengthFilter, s: Seq<char>)
    requires
        f.min <= f.max,
    ensures
        s.len() + 1 == f.min ==> in_range(s, f),
        s.len() + 1 == f.max ==> in_range(s, f),
        s.len() + 1 < f.min ==> !in_range(s, f),
        s.len() + 1 > f.max ==> !in_range(s, f),
{
}

/// What survives sifting is pairwise distinct, within the length
/// bounds, and disjoint from `seen`.
pub proof fn lemma_sift_unique(cands: Seq<Seq<char>>, f: LengthFilter, seen: Seq<Seq<char>>)
    ensures
        forall|a: int, b: int|
            0 <= a < b < spec_sift(cands, f, seen).len() ==> #[trigger] spec_sift(
                cands,
                f,
                seen,
            )[a] != #[trigger] spec_sift(cands, f, seen)[b],
        forall|a: int|
            0 <= a < spec_sift(cands, f, seen).len() ==> in_range(
                #[trigger] spec_sift(cands, f, seen)[a],
                f,
            ),
        forall|a: int|
            0 <= a < spec_sift(cands, f, seen).len() ==> !seen.contains(
                #[trigger] spec_sift(cands, f, seen)[a],
            ),
    decreases cands.len(),
{
    if cands.len() == 0 {
    } else {
        let c0 = cands[0];
        let res = spec_sift(cands, f, seen);
        if in_range(c0, f) && !seen.contains(c0) {
            let seen2 = seen.push(c0);
            lemma_sift_unique(cands.drop_first(), f, seen2);
            let rec = spec_sift(cands.drop_first(), f, seen2);
            assert(res == seq![c0] + rec);
            assert(res[0] == c0);
            assert(seen2[seen.len() as int] == c0);
            assert(seen2.contains(c0));
            assert forall|a: int| 0 <= a < res.len() implies in_range(#[trigger] res[a], f) by {
                if a > 0 {
                    assert(res[a] == rec[a - 1]);
                }
            }
            assert forall|a: int| 0 <= a < res.len() implies !seen.contains(
                #[trigger] res[a],
            ) by {
                if a > 0 {
                    assert(res[a] == rec[a - 1]);
                    assert(!seen2.contains(rec[a - 1]));
                }
                if seen.contains(res[a]) {
                    let t = choose|t: int| 0 <= t < seen.len() && seen[t] == res[a];
                    assert(seen2[t] == res[a]);
                    assert(seen2.contains(res[a]));
                    assert(false);
                }
            }
            assert forall|a: int, b: int| 0 <= a < b < res.len() implies #[trigger] res[a]
                != #[trigger] res[b] by {
                assert(res[b] == rec[b - 1]);
                assert(!seen2.contains(rec[b - 1]));
                if a == 0 {
                    assert(res[a] == c0);
                } else {
                    assert(res[a] == rec[a - 1]);
                }
            }
        } else {
            lemma_sift_unique(cands.drop_first(), f, seen);
            assert(res == spec_sift(cands.drop_first(), f, seen));
        }
    }
}

/// Dedup is global across rules: a string never appears twice in a
/// run's output, whichever rules produced it.
pub proof fn lemma_generate_unique(c: ConfV)
    ensures
        forall|a: int, b: int|
            0 <= a < b < spec_generate(c).len() ==> spec_generate(c)[a] != spec_generate(c)[b],
{
    lemma_sift_unique(all_candidates(c.rule, c.element), c.filter, Seq::empty());
}

/// Sifting loses nothing it should keep: a candidate of the stream that
/// passes the length filter and is not already in `seen` appears in the
/// result.
pub proof fn lemma_sift_complete(
    cands: Seq<Seq<char>>,
    f: LengthFilter,
    seen: Seq<Seq<char>>,
    x: Seq<char>,
)
    requires
        cands.contains(x),
        in_range(x, f),
        !seen.contains(x),
    ensures
        spec_sift(cands, f, seen).contains(x),
    decreases cands.len(),
{
    let c0 = cands[0];
    let res = spec_sift(cands, f, seen);
    if in_range(c0, f) && !seen.contains(c0) {
        assert(res == seq![c0] + spec_sift(cands.drop_first(), f, seen.push(c0)));
        if x == c0 {
            assert(res[0] == x);
        } else {
            let idx = choose|idx: int| 0 <= idx < cands.len() && cands[idx] == x;
            assert(cands.drop_first()[idx - 1] == x);
            assert(cands.drop_first().contains(x));
            let seen2 = seen.push(c0);
            assert forall|t: int| 0 <= t < seen2.len() implies seen2[t] != x by {
                if t < seen.len() {
                    assert(seen[t] != x);
                }
            }
            assert(!seen2.contains(x));
            lemma_sift_complete(cands.drop_first(), f, seen2, x);
            let rec = spec_sift(cands.drop_first(), f, seen2);
            let ridx = choose|ridx: int| 0 <= ridx < rec.len() && rec[ridx] == x;
            assert(res[ridx + 1] == x);
        }
    } else {
        if x == c0 {
            assert(in_range(c0, f) && !seen.contains(c0));
            assert(false);
        }
        let idx = choose|idx: int| 0 <= idx < cands.len() && cands[idx] == x;
        assert(cands.drop_first()[idx - 1] == x);
        assert(cands.drop_first().contains(x));
        lemma_sift_complete(cands.drop_first(), f, seen, x);
    }
}

/// A candidate some rule can produce lies in the run's candidate
/// stream.
pub proof fn lemma_all_candidates_from_rule(
    rules: Seq<Seq<char>>,
    elems: Seq<ElemV>,
    i: int,
    x: Seq<char>,
)
    requires
        0 <= i < rules.len(),
        rule_candidates(rules[i], elems).contains(x),
    ensures
        all_candidates(rules, elems).contains(x),
    decreases i,
{
    let first = rule_candidates(rules[0], elems);
    let rest = all_candidates(rules.drop_first(), elems);
    if i == 0 {
        let idx = choose|idx: int| 0 <= idx < first.len() && first[idx] == x;
        assert(all_candidates(rules, elems)[idx] == x);
    } else {
        assert(rules.drop_first()[i - 1] == rules[i]);
        lemma_all_candidates_from_rule(rules.drop_first(), elems, i - 1, x);
        let idx = choose|idx: int| 0 <= idx < rest.len() && rest[idx] == x;
        assert(all_candidates(rules, elems)[first.len() + idx] == x);
    }
}

/// Together with [`lemma_generate_unique`]: a string that any rule can
/// produce and that passes the length filter appears in the run's
/// output — hence exactly once, even when two rules can produce it.
pub proof fn lemma_generate_complete(c: ConfV, i: int, x: Seq<char>)
    requires
        0 <= i < c.rule.len(),
        rule_candidates(c.rule[i], c.element).contains(x),
        in_range(x, c.filter),
    ensures
        spec_generate(c).contains(x),
{
    lemma_all_candidates_from_rule(c.rule, c.element, i, x);
    assert(!Seq::<Seq<char>>::empty().contains(x));
    lemma_sift_complete(all_candidates(c.rule, c.element), c.filter, Seq::empty(), x);
}

} // verus!

