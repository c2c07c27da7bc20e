//! A small web page reader: an HTML tokenizer and DOM tree builder, a CSS
//! reader that splits stylesheets into rules, and a render tree that pairs
//! DOM nodes with the rules naming them.
pub mod text;
pub mod html_parser;
pub mod dom_tree;
pub mod css_parser;
pub mod render_tree;
