//! The data model: elements (named item sets), the length filter and
//! the whole run configuration, together with element-code validity,
//! item normalization and code lookup.

use vstd::prelude::*;

verus! {

/// A named set of substrings usable as a placeholder substitution
/// source. `code` identifies the element; `item` holds the substrings.
#[derive(Debug, Clone)]
pub struct Element {
    pub code: String,
    pub item: Vec<String>,
}

/// Mathematical model of an [`Element`].
pub ghost struct ElemV {
    pub code: Seq<char>,
    pub items: Seq<Seq<char>>,
}

impl View for Element {
    type V = ElemV;

    open spec fn view(&self) -> ElemV {
        ElemV { code: self.code.view(), items: self.item.deep_view() }
    }
}

impl DeepView for Element {
    type V = ElemV;

    open spec fn deep_view(&self) -> ElemV {
        self.view()
    }
}

/// Inclusive length bounds on generated candidates. A candidate is
/// measured in characters, counting one extra character for the line
/// terminator that the output sink appends.
#[derive(Debug, Clone, Copy)]
pub struct LengthFilter {
    pub min: usize,
    pub max: usize,
}

/// A full run configuration: the declared elements, the template rules
/// in declaration order, and the length filter.
#[derive(Debug, Clone)]
pub struct DgConfig {
    pub element: Vec<Element>,
    pub rule: Vec<String>,
    pub filter: LengthFilter,
}

/// Mathematical model of a [`DgConfig`].
pub ghost struct ConfV {
    pub element: Seq<ElemV>,
    pub rule: Seq<Seq<char>>,
    pub filter: LengthFilter,
}

impl View for DgConfig {
    type V = ConfV;

    open spec fn view(&self) -> ConfV {
        ConfV {
            element: self.element.deep_view(),
            rule: self.rule.deep_view(),
            filter: self.filter,
        }
    }
}

/// A word character: ASCII letter, digit or underscore. Element codes
/// are built from these alone, so a code can never contain a brace.
pub open spec fn is_word_char(c: char) -> bool {
    (97 <= c as u32 && c as u32 <= 122)  // 'a' ..= 'z'
    || (65 <= c as u32 && c as u32 <= 90)  // 'A' ..= 'Z'
    || (48 <= c as u32 && c as u32 <= 57)  // '0' ..= '9'
    || c as u32 == 95  // '_'
}

/// A valid element code: one or more word characters.
pub open spec fn valid_code(code: Seq<char>) -> bool {
    &&& code.len() > 0
    &&& forall|i: int| 0 <= i < code.len() ==> is_word_char(#[trigger] code[i])
}

/// The item set of the first declared element whose code is `code`,
/// or `None` when no element has that code.
pub open spec fn spec_lookup(elems: Seq<ElemV>, code: Seq<char>) -> Option<Seq<Seq<char>>>
    decreases elems.len(),
{
    if elems.len() == 0 {
        None
    } else if elems[0].code == code {
        Some(elems[0].items)
    } else {
        spec_lookup(elems.drop_first(), code)
    }
}

/// The valid element codes, in declaration order (duplicates kept).
pub open spec fn spec_codes(elems: Seq<ElemV>) -> Seq<Seq<char>>
    decreases elems.len(),
{
    if elems.len() == 0 {
        Seq::empty()
    } else if valid_code(elems[0].code) {
        seq![elems[0].code] + spec_codes(elems.drop_first())
    } else {
        spec_codes(elems.drop_first())
    }
}

/// Keeps the first occurrence of each string, dropping later repeats;
/// `seen` holds the strings already kept.
pub open spec fn dedup_first(s: Seq<Seq<char>>, seen: Seq<Seq<char>>) -> Seq<Seq<char>>
    decreases s.len(),
{
    if s.len() == 0 {
        Seq::empty()
    } else if seen.contains(s[0]) {
        dedup_first(s.drop_first(), seen)
    } else {
        seq![s[0]] + dedup_first(s.drop_first(), seen.push(s[0]))
    }
}

/// An element's effective item set: the declared items with the empty
/// string appended as the implicit member, deduplicated keeping first
/// occurrences in declaration order.
pub open spec fn spec_normalize(items: Seq<Seq<char>>) -> Seq<Seq<char>> {
    dedup_first(items.push(Seq::empty()), Seq::empty())
}

/// The codes of elements declared after another element with the same
/// code, one entry per repeated declaration; `seen` holds the codes
/// declared so far.
pub open spec fn spec_dup_codes(elems: Seq<ElemV>, seen: Seq<Seq<char>>) -> Seq<Seq<char>>
    decreases elems.len(),
{
    if elems.len() == 0 {
        Seq::empty()
    } else if seen.contains(elems[0].code) {
        seq![elems[0].code] + spec_dup_codes(elems.drop_first(), seen)
    } else {
        spec_dup_codes(elems.drop_first(), seen.push(elems[0].code))
    }
}

/// What [`dedup_first`] keeps is pairwise distinct, comes from the
/// input, and is disjoint from `seen`.
pub proof fn lemma_dedup_unique(s: Seq<Seq<char>>, seen: Seq<Seq<char>>)
    ensures
        forall|a: int, b: int|
            0 <= a < b < dedup_first(s, seen).len() ==> #[trigger] dedup_first(s, seen)[a]
                != #[trigger] dedup_first(s, seen)[b],
        forall|a: int|
            0 <= a < dedup_first(s, seen).len() ==> !seen.contains(
                #[trigger] dedup_first(s, seen)[a],
            ) && s.contains(dedup_first(s, seen)[a]),
    decreases s.len(),
{
    if s.len() == 0 {
    } else {
        let c0 = s[0];
        let res = dedup_first(s, seen);
        assert(s.contains(c0));
        assert forall|x: Seq<char>| s.drop_first().contains(x) implies s.contains(x) by {
            let t = choose|t: int| 0 <= t < s.drop_first().len() && s.drop_first()[t] == x;
            assert(s[t + 1] == x);
        }
        if seen.contains(c0) {
            lemma_dedup_unique(s.drop_first(), seen);
            assert(res == dedup_first(s.drop_first(), seen));
        } else {
            let seen2 = seen.push(c0);
            lemma_dedup_unique(s.drop_first(), seen2);
            let rec = dedup_first(s.drop_first(), seen2);
            assert(res == seq![c0] + rec);
            assert(res[0] == c0);
            assert(seen2[seen.len() as int] == c0);
            assert(seen2.contains(c0));
            assert forall|a: int| 0 <= a < res.len() implies !seen.contains(#[trigger] res[a])
                && s.contains(res[a]) by {
                if a > 0 {
                    assert(res[a] == rec[a - 1]);
                    assert(!seen2.contains(rec[a - 1]));
                    assert(s.drop_first().contains(rec[a - 1]));
                }
                if seen.contains(res[a]) {
                    let t = choose|t: int| 0 <= t < seen.len() && seen[t] == res[a];
                    assert(seen2[t] == res[a]);
                    assert(seen2.contains(res[a]));
                    assert(false);
                }
            }
            assert forall|a: int, b: int| 0 <= a < b < res.len() implies #[trigger] res[a]
                != #[trigger] res[b] by {
                assert(res[b] == rec[b - 1]);
                assert(!seen2.contains(rec[b - 1]));
                if a == 0 {
                    assert(res[a] == c0);
                } else {
                    assert(res[a] == rec[a - 1]);
                }
            }
        }
    }
}

/// [`dedup_first`] loses nothing new: an input string not yet in
/// `seen` appears in the result.
pub proof fn lemma_dedup_complete(s: Seq<Seq<char>>, seen: Seq<Seq<char>>, x: Seq<char>)
    requires
        s.contains(x),
        !seen.contains(x),
    ensures
        dedup_first(s, seen).contains(x),
    decreases s.len(),
{
    let c0 = s[0];
    let res = dedup_first(s, seen);
    if seen.contains(c0) {
        let idx = choose|idx: int| 0 <= idx < s.len() && s[idx] == x;
        assert(s.drop_first()[idx - 1] == x);
        assert(s.drop_first().contains(x));
        lemma_dedup_complete(s.drop_first(), seen, x);
    } else {
        let seen2 = seen.push(c0);
        assert(res == seq![c0] + dedup_first(s.drop_first(), seen2));
        if x == c0 {
            assert(res[0] == x);
        } else {
            let idx = choose|idx: int| 0 <= idx < s.len() && s[idx] == x;
            assert(s.drop_first()[idx - 1] == x);
            assert(s.drop_first().contains(x));
            assert forall|t: int| 0 <= t < seen2.len() implies seen2[t] != x by {
                if t < seen.len() {
                    assert(seen[t] != x);
                }
            }
            assert(!seen2.contains(x));
            lemma_dedup_complete(s.drop_first(), seen2, x);
            let rec = dedup_first(s.drop_first(), seen2);
            let ridx = choose|ridx: int| 0 <= ridx < rec.len() && rec[ridx] == x;
            assert(res[ridx + 1] == x);
        }
    }
}

/// A normalized item set counts each item once: it holds the implicit
/// empty string and every declared item, nothing else, and no repeats
/// — so its length is the set size that the candidate-count law
/// multiplies, with nothing counted twice when the empty string was
/// also declared explicitly.
pub proof fn lemma_normalize_props(items: Seq<Seq<char>>)
    ensures
        spec_normalize(items).contains(Seq::<char>::empty()),
        forall|a: int, b: int|
            0 <= a < b < spec_normalize(items).len() ==> #[trigger] spec_normalize(items)[a]
                != #[trigger] spec_normalize(items)[b],
        forall|x: Seq<char>|
            #[trigger] spec_normalize(items).contains(x) ==> items.contains(x) || x
                == Seq::<char>::empty(),
        forall|x: Seq<char>| #[trigger] items.contains(x) ==> spec_normalize(items).contains(x),
{
    let w = items.push(Seq::<char>::empty());
    let none = Seq::<Seq<char>>::empty();
    lemma_dedup_unique(w, none);
    assert(w[items.len() as int] == Seq::<char>::empty());
    assert(w.contains(Seq::<char>::empty()));
    lemma_dedup_complete(w, none, Seq::<char>::empty());
    assert forall|x: Seq<char>| #[trigger] items.contains(x) implies spec_normalize(
        items,
    ).contains(x) by {
        let t = choose|t: int| 0 <= t < items.len() && items[t] == x;
        assert(w[t] == x);
        assert(w.contains(x));
        lemma_dedup_complete(w, none, x);
    }
    assert forall|x: Seq<char>| #[trigger] spec_normalize(items).contains(x) implies
        items.contains(x) || x == Seq::<char>::empty() by {
        let a = choose|a: int|
            0 <= a < spec_normalize(items).len() && spec_normalize(items)[a] == x;
        assert(w.contains(spec_normalize(items)[a]));
        let t = choose|t: int| 0 <= t < w.len() && w[t] == x;
        if t < items.len() {
            assert(items[t] == x);
        }
    }
}

/// Decides [`valid_code`] for an exec string.
pub fn is_valid_code(code: &str) -> (r: bool)
    ensures
        r == valid_code(code@),
{
    let n = code.unicode_len();
    if n == 0 {
        return false;
    }
    let mut i: usize = 0;
    while i < n
        invariant
            n == code@.len(),
            0 <= i <= n,
            forall|k: int| 0 <= k < i ==> is_word_char(#[trigger] code@[k]),
        decreases n - i,
    {
        let c = code.get_char(i);
        let u = c as u32;
        if !((97 <= u && u <= 122) || (65 <= u && u <= 90) || (48 <= u && u <= 57) || u == 95) {
            return false;
        }
        i = i + 1;
    }
    true
}

/// Decides membership of a string among the views of a vector.
pub fn contains_string(v: &Vec<String>, s: &String) -> (b: bool)
    ensures
        b == v.deep_view().contains(s@),
{
    let mut k: usize = 0;
    while k < v.len()
        invariant
            0 <= k <= v@.len(),
            v.deep_view().len() == v@.len(),
            forall|t: int| 0 <= t < k ==> #[trigger] v.deep_view()[t] != s@,
        decreases v@.len() - k,
    {
        if v[k] == *s {
            assert(v.deep_view()[k as int] == s@);
            return true;
        }
        k = k + 1;
    }
    false
}

/// Copies a vector of strings.
pub fn clone_strings(v: &Vec<String>) -> (r: Vec<String>)
    ensures
        r.deep_view() == v.deep_view(),
{
    let mut r: Vec<String> = Vec::new();
    let mut k: usize = 0;
    while k < v.len()
        invariant
            0 <= k <= v@.len(),
            r.deep_view() =~= v.deep_view().take(k as int),
        decreases v@.len() - k,
    {
        let ghost old_r = r.deep_view();
        let x = v[k].clone();
        proof {
            assert(x@ == v.deep_view()[k as int]);
        }
        r.push(x);
        proof {
            assert(r.deep_view() =~= old_r.push(v.deep_view()[k as int]));
            assert(r.deep_view() =~= v.deep_view().take(k + 1));
        }
        k = k + 1;
    }
    proof {
        assert(v.deep_view().take(v@.len() as int) =~= v.deep_view());
    }
    r
}

impl DgConfig {
    /// The item set of the first declared element whose code is
    /// `code`, per [`spec_lookup`]; `None` when no element has it.
    pub fn get_element_item(&self, code: &str) -> (r: Option<Vec<String>>)
        ensures
            match r {
                Some(v) => spec_lookup(self@.element, code@) == Some(v.deep_view()),
                None => spec_lookup(self@.element, code@) is None,
            },
    {
        let ghost elems = self@.element;
        let code_string = code.to_owned();
        let mut k: usize = 0;
        proof {
            assert(elems.skip(0) =~= elems);
        }
        while k < self.element.len()
            invariant
                elems == self@.element,
                elems.len() == self.element@.len(),
                code_string@ == code@,
                0 <= k <= elems.len(),
                spec_lookup(elems, code@) == spec_lookup(elems.skip(k as int), code@),
            decreases elems.len() - k,
        {
            proof {
                assert(elems.skip(k as int)[0] == elems[k as int]);
                assert(elems.skip(k as int).drop_first() =~= elems.skip(k + 1));
            }
            if self.element[k].code == code_string {
                let items = clone_strings(&self.element[k].item);
                proof {
                    assert(elems[k as int] == self.element@[k as int].deep_view());
                }
                return Some(items);
            }
            k = k + 1;
        }
        proof {
            assert(elems.skip(elems.len() as int) =~= Seq::<ElemV>::empty());
        }
        None
    }
}

/// The valid codes of the declared elements, in declaration order, per
/// [`spec_codes`].
pub fn valid_codes(elements: &Vec<Element>) -> (codes: Vec<String>)
    ensures
        codes.deep_view() == spec_codes(elements.deep_view()),
        forall|k: int|
            0 <= k < codes.deep_view().len() ==> valid_code(#[trigger] codes.deep_view()[k]),
{
    let ghost elems = elements.deep_view();
    let mut codes: Vec<String> = Vec::new();
    let mut k: usize = 0;
    proof {
        assert(elems.skip(0) =~= elems);
        assert(codes.deep_view() + spec_codes(elems.skip(0)) =~= spec_codes(elems));
    }
    while k < elements.len()
        invariant
            elems == elements.deep_view(),
            elems.len() == elements@.len(),
            0 <= k <= elems.len(),
            spec_codes(elems) == codes.deep_view() + spec_codes(elems.skip(k as int)),
            forall|t: int|
                0 <= t < codes.deep_view().len() ==> valid_code(#[trigger] codes.deep_view()[t]),
        decreases elems.len() - k,
    {
        let ghost old_codes = codes.deep_view();
        proof {
            assert(elems.skip(k as int)[0] == elems[k as int]);
            assert(elems.skip(k as int).drop_first() =~= elems.skip(k + 1));
        }
        if is_valid_code(self_code(&elements[k])) {
            codes.push(elements[k].code.clone());
            proof {
                assert(codes.deep_view() =~= old_codes.push(elems[k as int].code));
                assert(old_codes + spec_codes(elems.skip(k as int)) =~= codes.deep_view()
                    + spec_codes(elems.skip(k + 1)));
            }
        }
        k = k + 1;
    }
    proof {
        assert(elems.skip(elems.len() as int) =~= Seq::<ElemV>::empty());
        assert(codes.deep_view() + spec_codes(elems.skip(elems.len() as int))
            =~= codes.deep_view());
    }
    codes
}

/// The element's code as a string slice.
fn self_code(e: &Element) -> (r: &str)
    ensures
        r@ == e@.code,
{
    e.code.as_str()
}

/// The effective item set of an element, per [`spec_normalize`]: the
/// declared items plus the implicit empty string, first occurrences
/// kept in order, repeats dropped.
pub fn normalize_items(items: &Vec<String>) -> (r: Vec<String>)
    ensures
        r.deep_view() == spec_normalize(items.deep_view()),
{
    let mut work = clone_strings(items);
    work.push(String::new());
    let ghost w = work.deep_view();
    proof {
        assert(w =~= items.deep_view().push(Seq::<char>::empty()));
    }
    let mut r: Vec<String> = Vec::new();
    let mut k: usize = 0;
    proof {
        assert(w.skip(0) =~= w);
        assert(r.deep_view() =~= Seq::<Seq<char>>::empty());
        assert(r.deep_view() + dedup_first(w.skip(0), r.deep_view()) =~= dedup_first(
            w,
            Seq::<Seq<char>>::empty(),
        ));
    }
    while k < work.len()
        invariant
            w == work.deep_view(),
            w.len() == work@.len(),
            0 <= k <= w.len(),
            spec_normalize(items.deep_view()) == r.deep_view() + dedup_first(
                w.skip(k as int),
                r.deep_view(),
            ),
        decreases w.len() - k,
    {
        let ghost old_r = r.deep_view();
        proof {
            assert(w.skip(k as int)[0] == w[k as int]);
            assert(w.skip(k as int).drop_first() =~= w.skip(k + 1));
        }
        if !contains_string(&r, &work[k]) {
            r.push(work[k].clone());
            proof {
                assert(r.deep_view() =~= old_r.push(w[k as int]));
                assert(old_r + dedup_first(w.skip(k as int), old_r) =~= r.deep_view()
                    + dedup_first(w.skip(k + 1), r.deep_view()));
            }
        }
        k = k + 1;
    }
    proof {
        assert(w.skip(w.len() as int) =~= Seq::<Seq<char>>::empty());
        assert(r.deep_view() + dedup_first(w.skip(w.len() as int), r.deep_view())
            =~= r.deep_view());
    }
    r
}

/// Normalizes every declared element, per [`spec_normalize`]: the
/// codes and their order are kept; each item set gains the implicit
/// empty string and loses repeats, first occurrences kept in order.
pub fn normalize_elements(elements: &Vec<Element>) -> (r: Vec<Element>)
    ensures
        r.deep_view().len() == elements.deep_view().len(),
        forall|k: int|
            0 <= k < elements.deep_view().len() ==> #[trigger] r.deep_view()[k] == (ElemV {
                code: elements.deep_view()[k].code,
                items: spec_normalize(elements.deep_view()[k].items),
            }),
{
    let ghost elems = elements.deep_view();
    let mut r: Vec<Element> = Vec::new();
    let mut k: usize = 0;
    while k < elements.len()
        invariant
            elems == elements.deep_view(),
            elems.len() == elements@.len(),
            0 <= k <= elems.len(),
            r.deep_view().len() == k,
            forall|t: int|
                0 <= t < k ==> #[trigger] r.deep_view()[t] == (ElemV {
                    code: elems[t].code,
                    items: spec_normalize(elems[t].items),
                }),
        decreases elems.len() - k,
    {
        let e = Element {
            code: elements[k].code.clone(),
            item: normalize_items(&elements[k].item),
        };
        proof {
            assert(e@ == ElemV { code: elems[k as int].code, items: spec_normalize(elems[k as int].items) });
        }
        let ghost old_r = r.deep_view();
        r.push(e);
        proof {
            assert(r.deep_view() =~= old_r.push(
                ElemV { code: elems[k as int].code, items: spec_normalize(elems[k as int].items) },
            ));
        }
        k = k + 1;
    }
    r
}

/// The codes declared more than once, one entry per repeated
/// declaration, per [`spec_dup_codes`]. A non-empty result is the
/// non-fatal duplicate-code warning condition.
pub fn duplicate_codes(elements: &Vec<Element>) -> (d: Vec<String>)
    ensures
        d.deep_view() == spec_dup_codes(elements.deep_view(), Seq::empty()),
{
    let ghost elems = elements.deep_view();
    let mut d: Vec<String> = Vec::new();
    let mut seen: Vec<String> = Vec::new();
    let mut k: usize = 0;
    proof {
        assert(elems.skip(0) =~= elems);
        assert(d.deep_view() =~= Seq::<Seq<char>>::empty());
        assert(seen.deep_view() =~= Seq::<Seq<char>>::empty());
        assert(d.deep_view() + spec_dup_codes(elems.skip(0), seen.deep_view())
            =~= spec_dup_codes(elems, Seq::<Seq<char>>::empty()));
    }
    while k < elements.len()
        invariant
            elems == elements.deep_view(),
            elems.len() == elements@.len(),
            0 <= k <= elems.len(),
            spec_dup_codes(elems, Seq::empty()) == d.deep_view() + spec_dup_codes(
                elems.skip(k as int),
                seen.deep_view(),
            ),
        decreases elems.len() - k,
    {
        let ghost old_d = d.deep_view();
        let ghost old_seen = seen.deep_view();
        proof {
            assert(elems.skip(k as int)[0] == elems[k as int]);
            assert(elems.skip(k as int).drop_first() =~= elems.skip(k + 1));
        }
        if contains_string(&seen, &elements[k].code) {
            d.push(elements[k].code.clone());
            proof {
                assert(d.deep_view() =~= old_d.push(elems[k as int].code));
                assert(old_d + spec_dup_codes(elems.skip(k as int), old_seen) =~= d.deep_view()
                    + spec_dup_codes(elems.skip(k + 1), old_seen));
            }
        } else {
            seen.push(elements[k].code.clone());
            proof {
                assert(seen.deep_view() =~= old_seen.push(elems[k as int].code));
            }
        }
        k = k + 1;
    }
    proof {
        assert(elems.skip(elems.len() as int) =~= Seq::<ElemV>::empty());
        assert(d.deep_view() + spec_dup_codes(elems.skip(elems.len() as int), seen.deep_view())
            =~= d.deep_view());
    }
    d
}

} // verus!
