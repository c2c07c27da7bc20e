use sapipiru::dom_tree::{add_new_node, create_DOM_tree, find_css_path, DOMNode, NodeType, UMAX};
use sapipiru::html_parser::{
    convert_tokentype_to_string, parse_html, print_dom_node, print_dom_vec_text, print_token,
    tokenize, try_parse_html, try_tokenize, Token, TokenType,
};

fn s(x: &str) -> String {
    x.to_string()
}

fn tok(t: TokenType, name: &str, data: &str, attrs: &[(&str, &str)]) -> Token {
    Token {
        token_type: t,
        tag_name: s(name),
        token_data: s(data),
        tag_attribute: attrs.iter().map(|(a, b)| (s(a), s(b))).collect(),
    }
}

fn summary(t: &Token) -> (TokenType, String, String, Vec<(String, String)>) {
    (t.token_type, t.tag_name.clone(), t.token_data.clone(), t.tag_attribute.clone())
}

#[test]
fn tokenize_simple_page() {
    let toks = tokenize(&s("<html><body>Hi</body></html>"));
    let got: Vec<_> = toks.iter().map(summary).collect();
    let want = vec![
        (TokenType::StratTag, s("html"), s(""), vec![]),
        (TokenType::StratTag, s("body"), s(""), vec![]),
        (TokenType::Text, s("text"), s("Hi"), vec![]),
        (TokenType::EndTag, s("body"), s(""), vec![]),
        (TokenType::EndTag, s("html"), s(""), vec![]),
        (TokenType::EndOfFile, s(""), s(""), vec![]),
    ];
    assert_eq!(got, want);
}

#[test]
fn tokenize_doctype_attributes_and_comment() {
    let toks = tokenize(&s("<!DOCTYPE html><p class=\"a\" hidden >x</p><!-- hi -->"));
    let got: Vec<_> = toks.iter().map(summary).collect();
    let want = vec![
        (TokenType::Doctype, s("doctype"), s(""), vec![]),
        (TokenType::StratTag, s("p"), s(""), vec![(s("class"), s("a")), (s("hidden"), s(""))]),
        (TokenType::Text, s("text"), s("x"), vec![]),
        (TokenType::EndTag, s("p"), s(""), vec![]),
        (TokenType::Comment, s("comment"), s(" hi "), vec![]),
        (TokenType::EndOfFile, s(""), s(""), vec![]),
    ];
    assert_eq!(got, want);
}

#[test]
fn tokenize_collapses_spaces_and_line_breaks() {
    let toks = tokenize(&s("<b>a \n\n  b</b>"));
    assert_eq!(toks[1].token_data, "a b");
    assert_eq!(toks.len(), 4);
}

#[test]
fn tokenize_empty_input_gives_only_eof() {
    let toks = tokenize(&s(""));
    assert_eq!(toks.len(), 1);
    assert_eq!(toks[0].token_type, TokenType::EndOfFile);
}

#[test]
fn tokenize_gives_up_on_empty_comment() {
    assert!(try_tokenize(&s("<p><!--></p>")).is_none());
    assert!(try_parse_html(&s("<!-->")).is_none());
    assert!(try_tokenize(&s("<!---->")).is_some());
}

fn node_summary(n: &DOMNode) -> (NodeType, String, String, usize, usize, Vec<usize>, usize, usize, usize, usize) {
    (
        n.node_content.node_type,
        n.node_content.node_name.clone(),
        n.node_content.node_value.clone(),
        n.this_node_idx,
        n.parent_node_idx,
        n.child_nodes_idx.clone(),
        n.first_child_idx,
        n.last_child_idx,
        n.previous_sibiling_idx,
        n.next_sibiling_idx,
    )
}

#[test]
fn parse_html_builds_linked_tree() {
    let page = s("<!DOCTYPE html><html><head><title>T</title></head><body><p class=\"a\">Hi</p></body></html>");
    let (tree, links) = parse_html(&page);
    assert!(links.is_empty());
    let got: Vec<_> = tree.iter().map(node_summary).collect();
    let u = UMAX;
    let want = vec![
        (NodeType::Document, s("doctype"), s(""), 0, u, vec![1], 1, 1, u, u),
        (NodeType::Element, s("html"), s(""), 1, 0, vec![2, 5], 2, 5, u, u),
        (NodeType::Element, s("head"), s(""), 2, 1, vec![3], 3, 3, u, 5),
        (NodeType::Element, s("title"), s(""), 3, 2, vec![4], 4, 4, u, u),
        (NodeType::Text, s("text"), s("T"), 4, 3, vec![], u, u, u, u),
        (NodeType::Element, s("body"), s(""), 5, 1, vec![6], 6, 6, 2, u),
        (NodeType::Element, s("p"), s(""), 6, 5, vec![7, 8], 7, 8, u, u),
        (NodeType::Attribute, s("class"), s("a"), 7, 6, vec![], u, u, u, 8),
        (NodeType::Text, s("text"), s("Hi"), 8, 6, vec![], u, u, 7, u),
    ];
    assert_eq!(got, want);
}

#[test]
fn parse_html_collects_stylesheet_links() {
    let page = s("<!DOCTYPE html><html><head><link rel=\"stylesheet\" href=\"style.css\"><link rel=\"icon\" href=\"i.png\"><LINK REL=\"StyleSheet\" HREF=\"b.css\"></head></html>");
    let (tree, links) = parse_html(&page);
    assert_eq!(links, vec![s("style.css"), s("b.css")]);
    // the links are void: both stay children of head
    assert_eq!(tree[2].node_content.node_name, "head");
    assert_eq!(tree[2].child_nodes_idx, vec![3, 6, 9]);
}

#[test]
fn parse_html_ignores_content_before_doctype() {
    let (tree, links) = parse_html(&s("<p>x</p>"));
    assert!(tree.is_empty());
    assert!(links.is_empty());
}

#[test]
fn find_css_path_needs_stylesheet_rel() {
    let t = tok(TokenType::StratTag, "link", "", &[("href", "a.css"), ("rel", "stylesheet"), ("href", "b.css")]);
    assert_eq!(find_css_path(t), "b.css");
    let t = tok(TokenType::StratTag, "link", "", &[("href", "a.css")]);
    assert_eq!(find_css_path(t), "");
}

#[test]
fn add_new_node_links_siblings() {
    let mut count = 0usize;
    let mut stack: Vec<usize> = Vec::new();
    let mut tree: Vec<DOMNode> = Vec::new();
    add_new_node(&tok(TokenType::StratTag, "DIV", "", &[("id", "x")]), &mut count, &mut stack, &mut tree);
    add_new_node(&tok(TokenType::StratTag, "br", "", &[]), &mut count, &mut stack, &mut tree);
    assert_eq!(count, 3);
    assert_eq!(stack, vec![0]);
    assert_eq!(tree[0].node_content.node_name, "div");
    assert_eq!(tree[0].child_nodes_idx, vec![1, 2]);
    assert_eq!(tree[1].next_sibiling_idx, 2);
    assert_eq!(tree[2].previous_sibiling_idx, 1);
    assert_eq!(tree[0].last_child_idx, 2);
}

#[test]
fn create_dom_tree_with_no_tokens() {
    let (tree, links) = create_DOM_tree(Vec::new());
    assert!(tree.is_empty() && links.is_empty());
}

#[test]
fn convert_tokentype_names() {
    assert_eq!(convert_tokentype_to_string(TokenType::StratTag), "StratTag");
    assert_eq!(convert_tokentype_to_string(TokenType::EndOfFile), "EndOfFile");
    assert_eq!(convert_tokentype_to_string(TokenType::Unknown), "Unknown");
}

#[test]
fn print_token_listing() {
    let toks = tokenize(&s("<p a=\"b\">Hi</p>"));
    let out = print_token(toks);
    let want = "0:   TokenType-> StratTag   TagName-> p   TagAttributes->  [type: a,  data: b]    TokenData-> \n\
1:   TokenType-> Text   TagName-> text   TagAttributes->    TokenData-> Hi\n\
2:   TokenType-> EndTag   TagName-> p   TagAttributes->    TokenData-> \n\
3:   TokenType-> EndOfFile   TagName->    TagAttributes->    TokenData-> \n";
    assert_eq!(out, want);
}

#[test]
fn print_dom_node_listing() {
    let (tree, _) = parse_html(&s("<!DOCTYPE x><html>"));
    let mut out = s("start");
    print_dom_node(&tree, &mut out);
    let want = "start\n\nPARENT [ index: 0, name: doctype, value:  ]\nCHILD_COUNT: 1\nCHILDS  [ 1,  ]\n\nPARENT [ index: 1, name: html, value:  ]\nCHILD_COUNT: 0\nCHILDS  [  ]";
    assert_eq!(out, want);
}

#[test]
fn print_dom_vec_listing() {
    let (tree, _) = parse_html(&s("<!DOCTYPE x><html>"));
    assert_eq!(print_dom_vec_text(&tree), "0\n: \n\nchilds\n\n1\n1\n: \n\nNO child\n\n");
}

#[test]
fn tokenize_doctype_in_any_case() {
    let toks = tokenize(&s("<!doctype html><DiV>"));
    assert_eq!(toks[0].token_type, TokenType::Doctype);
    assert_eq!(toks[0].tag_name, "doctype");
    assert_eq!(toks[1].tag_name, "DiV");
}

#[test]
fn node_names_are_lower_case() {
    let (tree, _) = parse_html(&s("<!DOCTYPE html><HTML><HEAD><LINK REL=\"x\"></HEAD></HTML>"));
    let names: Vec<_> = tree.iter().map(|n| n.node_content.node_name.clone()).collect();
    assert_eq!(names, vec![s("doctype"), s("html"), s("head"), s("link"), s("REL")]);
}

#[test]
fn empty_stylesheet_links_are_not_collected() {
    let (_, links) = parse_html(&s("<!DOCTYPE html><html><head><link rel=\"stylesheet\" href=\"\"></head></html>"));
    assert!(links.is_empty());
}

fn check_well_formed(tree: &[DOMNode]) {
    for (i, n) in tree.iter().enumerate() {
        assert_eq!(n.this_node_idx, i);
        let c = &n.child_nodes_idx;
        for (k, &x) in c.iter().enumerate() {
            assert!(i < x && x < tree.len());
            assert_eq!(tree[x].parent_node_idx, i);
            assert_eq!(tree[x].previous_sibiling_idx, if k == 0 { UMAX } else { c[k - 1] });
            assert_eq!(tree[x].next_sibiling_idx, if k + 1 == c.len() { UMAX } else { c[k + 1] });
            if k > 0 {
                assert!(c[k - 1] < x);
            }
        }
        assert_eq!(n.first_child_idx, c.first().copied().unwrap_or(UMAX));
        assert_eq!(n.last_child_idx, c.last().copied().unwrap_or(UMAX));
        if n.parent_node_idx == UMAX {
            assert_eq!(n.previous_sibiling_idx, UMAX);
            assert_eq!(n.next_sibiling_idx, UMAX);
        } else {
            assert!(n.parent_node_idx < i);
            assert!(tree[n.parent_node_idx].child_nodes_idx.contains(&i));
        }
    }
}

#[test]
fn built_trees_are_well_formed() {
    let page = s("<!DOCTYPE html><html lang=\"en\"><head><meta charset=\"utf-8\"><title>A</title><!-- c --></head><body><div id=\"a\" class=\"b\"><p>x<br>y</p><img src=\"i\"><ul><li>1</li><li>2</li></ul></div></body></html>");
    let (tree, _) = parse_html(&page);
    assert!(tree.len() > 10);
    check_well_formed(&tree);
    let toks = vec![
        tok(TokenType::Doctype, "doctype", "", &[]),
        tok(TokenType::EndTag, "doctype", "", &[]),
        tok(TokenType::Text, "text", "x", &[("a", "b"), ("c", "d")]),
    ];
    let (tree, _) = create_DOM_tree(toks);
    check_well_formed(&tree);
}

#[test]
fn tokens_are_well_formed() {
    let page = s("<!DOCTYPE html><a href=\"x\">t</a><!-- c -->  <b>  </b><p\n>z</p>");
    let toks = tokenize(&page);
    let (last, rest) = toks.split_last().unwrap();
    assert_eq!(last.token_type, TokenType::EndOfFile);
    for t in rest {
        assert!(t.token_type != TokenType::EndOfFile && t.token_type != TokenType::Unknown);
        assert!(!t.tag_name.is_empty() || !t.token_data.is_empty());
        match t.token_type {
            TokenType::Text => assert_eq!(t.tag_name, "text"),
            TokenType::Comment => assert_eq!(t.tag_name, "comment"),
            TokenType::Doctype => assert_eq!(t.tag_name, "doctype"),
            _ => {}
        }
    }
}
