use sapipiru::css_parser::{CSSData, HandleCSSData};
use sapipiru::html_parser::parse_html;
use sapipiru::render_tree::{HandleRederTree, TreesData};

#[test]
fn dfs_styles_named_nodes() {
    let (tree, _) = parse_html(&"<!DOCTYPE html><html><head></head><body></body></html>".to_string());
    let mut css = CSSData::default();
    css.push_css_text("head { x: y } body { z: w }".to_string());
    let rules = css.parse_css();
    let mut data = TreesData::default();
    let r = data.create_render_tree(tree, rules);
    assert!(r.is_empty());
    data.dfs(2, 1);
    assert_eq!(data.render_tree.len(), 1);
    assert_eq!(data.render_tree[0].style_value, "head");
    assert_eq!(data.render_tree[0].dom_node.this_node_idx, 2);
    // the last child of its parent ends the walk at once
    data.dfs(3, 1);
    assert_eq!(data.render_tree.len(), 1);
    // a node no rule names gets a default render node
    data.dfs(0, 0);
    assert_eq!(data.render_tree.len(), 2);
    assert_eq!(data.render_tree[1].style_value, "");
    assert_eq!(data.render_tree[1].dom_node.this_node_idx, 0);
}
