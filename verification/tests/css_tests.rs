use sapipiru::css_parser::{handle_selector, CSSData, HandleCSSData, Rule, SelectorType};

fn s(x: &str) -> String {
    x.to_string()
}

fn items(sel: &str) -> Vec<(SelectorType, String)> {
    handle_selector(s(sel)).items.iter().map(|i| (i.selector_type, i.item_string.clone())).collect()
}

#[test]
fn handle_selector_splits_parts() {
    assert_eq!(
        items("div.note > p"),
        vec![
            (SelectorType::Element, s("div")),
            (SelectorType::Class, s("note")),
            (SelectorType::Desendants, s("")),
            (SelectorType::Child, s("")),
            (SelectorType::Desendants, s("p")),
        ]
    );
    assert_eq!(handle_selector(s("a#b")).all_string, "a#b");
    assert_eq!(items("#id"), vec![(SelectorType::Id, s("id"))]);
    assert_eq!(items("*"), vec![]);
    assert_eq!(items("a:hover"), vec![(SelectorType::Element, s("a")), (SelectorType::Colon, s("hover"))]);
    assert_eq!(items(""), vec![]);
}

#[test]
fn selector_type_names() {
    assert_eq!(SelectorType::Desendants.to_string(), "Desendants");
    assert_eq!(SelectorType::NextSibiling.to_string(), "NextSibiling");
    assert_eq!(SelectorType::Column.to_string(), "Column");
}

type RuleSummary = (Vec<(String, Vec<(SelectorType, String)>)>, Vec<(String, String)>, String);

fn summary(r: &Rule) -> RuleSummary {
    (
        r.selectors
            .iter()
            .map(|x| (x.all_string.clone(), x.items.iter().map(|i| (i.selector_type, i.item_string.clone())).collect()))
            .collect(),
        r.declarations.iter().map(|d| (d.propery.clone(), d.value.clone())).collect(),
        r.comment.clone(),
    )
}

fn parse(texts: &[&str]) -> Vec<RuleSummary> {
    let mut data = CSSData::default();
    for t in texts {
        data.push_css_text(s(t));
    }
    data.parse_css().iter().map(summary).collect()
}

#[test]
fn parse_css_rules_and_comments() {
    let got = parse(&["h1 { color: red; }\n/* note */\np, div { margin: 0 }"]);
    let want: Vec<RuleSummary> = vec![
        (vec![(s("h1"), vec![(SelectorType::Element, s("h1"))])], vec![(s("color"), s("red"))], s("")),
        (vec![], vec![], s(" note ")),
        (
            vec![
                (s("p"), vec![(SelectorType::Element, s("p"))]),
                (s("div"), vec![(SelectorType::Element, s("div"))]),
            ],
            vec![(s("margin"), s("0"))],
            s(""),
        ),
    ];
    assert_eq!(got, want);
}

#[test]
fn parse_css_drops_incomplete_declarations_and_empty_rules() {
    let got = parse(&["a{x;y:;:z}", "{}"]);
    assert_eq!(got, vec![(vec![(s("a"), vec![(SelectorType::Element, s("a"))])], vec![], s(""))]);
}

#[test]
fn parse_css_joins_stylesheets_in_order() {
    let got = parse(&["a{b:c}", "d{e:f}"]);
    assert_eq!(got.len(), 2);
    assert_eq!(got[0].1, vec![(s("b"), s("c"))]);
    assert_eq!(got[1].1, vec![(s("e"), s("f"))]);
}

#[test]
fn push_original_url_keeps_directory() {
    let mut d = CSSData::default();
    d.push_original_url(s("https://example.com/dir/index.html"));
    assert_eq!(d.current_dir, "https://example.com/dir");
    d.push_original_url(s("noslash"));
    assert_eq!(d.current_dir, "");
    d.push_original_url(s("a/"));
    assert_eq!(d.current_dir, "a");
}

#[test]
fn handle_link_format_cases() {
    let mut d = CSSData::default();
    d.push_original_url(s("https://example.com/dir/index.html"));
    assert_eq!(d.handle_link_format(s("http://other.com/a.css")), "http://other.com/a.css");
    assert_eq!(d.handle_link_format(s("/css/main.css")), "https://example.com/css/main.css");
    assert_eq!(d.handle_link_format(s("style.css")), "https://example.com/dir/style.css");
    let mut e = CSSData::default();
    e.push_original_url(s("host/x"));
    assert_eq!(e.handle_link_format(s("/a")), "host//a");
}

#[test]
fn push_links_records_formatted_links() {
    let mut d = CSSData::default();
    d.push_original_url(s("http://h.org/p/q.html"));
    let f = d.push_links(vec![s("a.css"), s("/b.css")]);
    assert_eq!(f, vec![s("http://h.org/p/a.css"), s("http://h.org/b.css")]);
    assert_eq!(d.links, f);
}

#[test]
fn get_css_text_reads_back() {
    let mut d = CSSData::default();
    assert_eq!(d.get_css_text(5), "");
    d.push_css_text(s("a{}"));
    d.push_css_text(s("b{}"));
    assert_eq!(d.get_css_text(1), "b{}");
}

#[test]
fn selector_parts_keep_text() {
    for sel in ["div.note > p", "a:hover::after", "#x .y ~ z + w", "ul li[data] *", ""] {
        let joined: String = handle_selector(s(sel)).items.iter().map(|i| i.item_string.clone()).collect();
        let stripped: String = sel.chars().filter(|c| !"#.*[: >+~".contains(*c)).collect();
        assert_eq!(joined, stripped);
        let its = handle_selector(s(sel)).items;
        for it in its.iter().skip(1) {
            assert!(it.selector_type != SelectorType::Element);
        }
    }
}

#[test]
fn parse_css_of_joined_lists() {
    let both = parse(&["a{b:c}", "/*n*/d{e:f}"]);
    let mut apart = parse(&["a{b:c}"]);
    apart.extend(parse(&["/*n*/d{e:f}"]));
    assert_eq!(both, apart);
}

#[test]
fn parsed_rules_are_complete() {
    for r in parse(&["a{x:;y: z ; :w; v}", "/*c*/b,c{}d{e:f}", "g{h:i"]) {
        if !r.0.is_empty() || !r.1.is_empty() {
            assert!(r.2.is_empty());
        }
        for d in &r.1 {
            assert!(!d.0.is_empty() && !d.1.is_empty());
        }
    }
}

#[test]
fn directory_and_last_segment_make_the_url() {
    for url in ["https://example.com/dir/index.html", "a/b/", "/x", "p/q"] {
        let mut d = CSSData::default();
        d.push_original_url(s(url));
        let tail = url.rsplit('/').next().unwrap();
        assert_eq!(format!("{}/{}", d.current_dir, tail), url);
    }
}

#[test]
fn formatted_links_stay_formatted() {
    let mut d = CSSData::default();
    d.push_original_url(s("https://example.com/dir/index.html"));
    for link in ["/css/main.css", "style.css", "http://x.org/a.css", "../up.css"] {
        let once = d.handle_link_format(s(link));
        let twice = d.handle_link_format(once.clone());
        assert_eq!(once, twice);
    }
}
