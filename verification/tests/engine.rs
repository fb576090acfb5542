use dictgen::DgConfig;
use dictgen::Element;
use dictgen::LengthFilter;
use dictgen::Token;
use dictgen::duplicate_codes;
use dictgen::expand;
use dictgen::generate_dict;
use dictgen::is_valid_code;
use dictgen::normalize_elements;
use dictgen::normalize_items;
use dictgen::parse;
use dictgen::valid_codes;

fn elem(code: &str, items: &[&str]) -> Element {
    Element {
        code: String::from(code),
        item: items.iter().map(|s| String::from(*s)).collect(),
    }
}

fn strings(items: &[&str]) -> Vec<String> {
    items.iter().map(|s| String::from(*s)).collect()
}

fn conf(elements: Vec<Element>, rules: &[&str], min: usize, max: usize) -> DgConfig {
    DgConfig {
        element: elements,
        rule: rules.iter().map(|s| String::from(*s)).collect(),
        filter: LengthFilter { min, max },
    }
}

#[test]
fn regex_1() {
    assert!(is_valid_code("123"));

    let codes = strings(&["org", "sorg", "app", "user", "hfstr"]);
    let tokens = parse("bad{app}xxx", &codes);
    let a = tokens
        .iter()
        .any(|t| matches!(t, Token::Placeholder(_)));
    println!("{}", a);
}

#[test]
fn conftest() {
    let c = conf(
        vec![
            elem("E1", &["abc", "zxc"]),
            elem("E2", &["admin", "root"]),
            elem("E3", &["123", "111"]),
        ],
        &["{E1}{E2}{E3}", "{E2}{E3}{E3}"],
        0,
        12,
    );

    println!("{:#?}", c);
}

#[test]
fn empty_element_expands_to_surrounding_text() {
    // An element declared with zero items still yields a single empty
    // choice: the placeholder is replaced by the empty string.
    let c = conf(
        vec![elem("c1", &[])],
        &["pre{c1}post"],
        0,
        100,
    );
    let normalized = conf(normalize_elements(&c.element), &["pre{c1}post"], 0, 100);
    let codes = valid_codes(&normalized.element);
    let tokens = parse("pre{c1}post", &codes);
    let out = expand(&tokens, &normalized);
    assert_eq!(out, strings(&["prepost"]));
}

#[test]
fn rule_without_placeholders_is_one_candidate() {
    let c = conf(vec![elem("org", &["baidu"])], &[], 0, 100);
    let codes = valid_codes(&c.element);
    let tokens = parse("hello@2024", &codes);
    let out = expand(&tokens, &c);
    assert_eq!(out, strings(&["hello@2024"]));
}

#[test]
fn unknown_code_braces_stay_literal() {
    let c = conf(vec![elem("org", &["baidu"])], &[], 0, 100);
    let codes = valid_codes(&c.element);
    let tokens = parse("bad{xyz}end", &codes);
    assert_eq!(tokens, vec![Token::Literal(String::from("bad{xyz}end"))]);
    let out = expand(&tokens, &c);
    assert_eq!(out, strings(&["bad{xyz}end"]));
}

#[test]
fn no_known_codes_whole_rule_is_literal() {
    let c = conf(vec![], &[], 0, 100);
    let codes = valid_codes(&c.element);
    assert!(codes.is_empty());
    let tokens = parse("{org}@x", &codes);
    assert_eq!(tokens, vec![Token::Literal(String::from("{org}@x"))]);
}

#[test]
fn expansion_count_is_product_of_set_sizes() {
    // Two declared items become three with the implicit empty string;
    // three become four: 3 * 4 = 12 raw candidates.
    let elements = normalize_elements(&vec![
        elem("e1", &["a", "b"]),
        elem("e2", &["x", "y", "z"]),
    ]);
    let c = conf(elements, &[], 0, 100);
    let codes = valid_codes(&c.element);
    let tokens = parse("{e1}{e2}", &codes);
    let out = expand(&tokens, &c);
    assert_eq!(out.len(), 3 * 4);
}

#[test]
fn explicit_empty_item_is_not_counted_twice() {
    // An element declared with an explicit "" keeps a set of two items,
    // not three: the implicit member coincides with the declared one.
    let normalized = normalize_items(&strings(&["a", ""]));
    assert_eq!(normalized, strings(&["a", ""]));

    let none: Vec<String> = Vec::new();
    assert_eq!(normalize_items(&none), strings(&[""]));

    assert_eq!(
        normalize_items(&strings(&["a", "b", "a", "b"])),
        strings(&["a", "b", ""]),
    );
}

#[test]
fn dedup_is_global_across_rules() {
    // Both rules can produce "x"; it is emitted exactly once.
    let elements = normalize_elements(&vec![elem("a", &["x"])]);
    let c = conf(elements, &["{a}", "x"], 0, 100);
    let out = generate_dict(&c);
    assert_eq!(out, strings(&["x", ""]));
}

#[test]
fn length_filter_is_inclusive_on_both_ends() {
    // Lengths count one extra character for the line terminator: with
    // bounds [4, 6], content of 3 characters sits exactly on the lower
    // bound and content of 5 exactly on the upper; 2 and 6 fall outside.
    let c = conf(
        vec![],
        &["ab", "abc", "abcde", "abcdef"],
        4,
        6,
    );
    let out = generate_dict(&c);
    assert_eq!(out, strings(&["abc", "abcde"]));
}

#[test]
fn parse_is_deterministic() {
    let codes = strings(&["org", "user"]);
    let t1 = parse("x{org}-{user}y", &codes);
    let t2 = parse("x{org}-{user}y", &codes);
    assert_eq!(t1, t2);
    assert_eq!(
        t1,
        vec![
            Token::Literal(String::from("x")),
            Token::Placeholder(String::from("org")),
            Token::Literal(String::from("-")),
            Token::Placeholder(String::from("user")),
            Token::Literal(String::from("y")),
        ],
    );
}

#[test]
fn org_user_scenario() {
    // org = {"baidu"}, user = {"admin", "root", ""}, rule "{org}{user}",
    // filter [0, 100]: three unique strings; the empty-item variant
    // "baidu" + "" duplicates nothing else here.
    let c = conf(
        vec![elem("org", &["baidu"]), elem("user", &["admin", "root", ""])],
        &["{org}{user}"],
        0,
        100,
    );
    let out = generate_dict(&c);
    assert_eq!(out, strings(&["baiduadmin", "baiduroot", "baidu"]));
}

#[test]
fn org_user_scenario_normalized() {
    // The same run with both elements normalized: the implicit empty
    // choice of org contributes the bare user items as well.
    let elements = normalize_elements(&vec![
        elem("org", &["baidu"]),
        elem("user", &["admin", "root"]),
    ]);
    let c = conf(elements, &["{org}{user}"], 0, 100);
    let out = generate_dict(&c);
    assert_eq!(
        out,
        strings(&["baiduadmin", "baiduroot", "baidu", "admin", "root", ""]),
    );
}

#[test]
fn duplicate_codes_warn_and_first_declaration_wins() {
    let elements = normalize_elements(&vec![elem("E1", &["a"]), elem("E1", &["b"])]);
    let dups = duplicate_codes(&elements);
    assert_eq!(dups, strings(&["E1"]));

    let c = conf(elements, &["{E1}"], 0, 100);
    let out = generate_dict(&c);
    assert_eq!(out, strings(&["a", ""]));
    assert!(!out.contains(&String::from("b")));
}

#[test]
fn lookup_finds_first_element_or_nothing() {
    let c = conf(
        vec![elem("org", &["baidu"]), elem("org", &["sogou"])],
        &[],
        0,
        100,
    );
    assert_eq!(c.get_element_item("org"), Some(strings(&["baidu"])));
    assert_eq!(c.get_element_item("none"), None);
}

#[test]
fn invalid_codes_never_match() {
    // An element whose code is not word characters is skipped when the
    // alternation of known codes is built, so its placeholder stays
    // literal text.
    let elements = vec![elem("a-b", &["x"]), elem("ok_1", &["y"])];
    let codes = valid_codes(&elements);
    assert_eq!(codes, strings(&["ok_1"]));

    assert!(!is_valid_code(""));
    assert!(!is_valid_code("a-b"));
    assert!(is_valid_code("ABC_9"));
    assert!(is_valid_code("_"));
}

#[test]
fn generation_has_no_duplicates() {
    let elements = normalize_elements(&vec![
        elem("E1", &["abc", "zxc"]),
        elem("E2", &["admin", "root"]),
        elem("E3", &["123", "111"]),
    ]);
    let c = conf(elements, &["{E1}{E2}{E3}", "{E2}{E3}{E3}"], 0, 12);
    let out = generate_dict(&c);
    assert!(out.contains(&String::from("abcadmin123")));
    assert!(out.contains(&String::from("admin123111")));
    for i in 0..out.len() {
        // every accepted line respects the bounds, terminator counted
        assert!(out[i].len() + 1 <= 12);
        for j in 0..i {
            assert_ne!(out[i], out[j]);
        }
    }
}
