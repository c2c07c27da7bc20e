//! The DOM tree built from the tokens of a page: nodes stored in one vector,
//! linked to each other by their indices.
use vstd::prelude::*;

use crate::html_parser::{Token, TokenType, TokenView, attrs_view, tokens_view};
use crate::text::{chars_of, spec_lowercase, str_to_lowercase, is_ascii_lower_word};

verus! {

/// The index that stands for "no node".
pub const UMAX: usize = usize::MAX;

/// Kinds of DOM node.
#[derive(PartialEq, Eq, Structural, Clone, Copy, Debug)]
pub enum NodeType {
    Element,
    Attribute,
    Text,
    CDataSection,
    EntityReference,
    Entity,
    ProcessingInstruction,
    Comment,
    Document,
    DocumentType,
    DocumentFragment,
    Notation,
}

impl Default for NodeType {
    fn default() -> (r: Self)
        ensures
            r == NodeType::Document,
    {
        NodeType::Document
    }
}

/// What a node holds: its kind, its name and its value.
pub struct NodeContent {
    pub node_type: NodeType,
    pub node_name: String,
    pub node_value: String,
}

/// A node of the tree; every link to another node is that node's index,
/// `UMAX` where there is none.
pub struct DOMNode {
    pub node_content: NodeContent,
    pub this_node_idx: usize,
    pub parent_node_idx: usize,
    pub child_nodes_idx: Vec<usize>,
    pub first_child_idx: usize,
    pub last_child_idx: usize,
    pub previous_sibiling_idx: usize,
    pub next_sibiling_idx: usize,
}

/// The mathematical value of a node.
#[verifier::ext_equal]
pub struct DOMNodeView {
    pub node_type: NodeType,
    pub node_name: Seq<char>,
    pub node_value: Seq<char>,
    pub this_node_idx: usize,
    pub parent_node_idx: usize,
    pub child_nodes_idx: Seq<usize>,
    pub first_child_idx: usize,
    pub last_child_idx: usize,
    pub previous_sibiling_idx: usize,
    pub next_sibiling_idx: usize,
}

impl View for DOMNode {
    type V = DOMNodeView;

    open spec fn view(&self) -> DOMNodeView {
        DOMNodeView {
            node_type: self.node_content.node_type,
            node_name: self.node_content.node_name@,
            node_value: self.node_content.node_value@,
            this_node_idx: self.this_node_idx,
            parent_node_idx: self.parent_node_idx,
            child_nodes_idx: self.child_nodes_idx@,
            first_child_idx: self.first_child_idx,
            last_child_idx: self.last_child_idx,
            previous_sibiling_idx: self.previous_sibiling_idx,
            next_sibiling_idx: self.next_sibiling_idx,
        }
    }
}

pub open spec fn dom_view(v: Seq<DOMNode>) -> Seq<DOMNodeView> {
    v.map_values(|n: DOMNode| n@)
}

impl Clone for NodeContent {
    fn clone(&self) -> (r: Self)
        ensures
            r.node_type == self.node_type,
            r.node_name@ == self.node_name@,
            r.node_value@ == self.node_value@,
    {
        NodeContent {
            node_type: self.node_type,
            node_name: self.node_name.clone(),
            node_value: self.node_value.clone(),
        }
    }
}

impl Clone for DOMNode {
    fn clone(&self) -> (r: Self)
        ensures
            r@ == self@,
    {
        let c = self.child_nodes_idx.clone();
        assert(c@ =~= self.child_nodes_idx@);
        DOMNode {
            node_content: self.node_content.clone(),
            this_node_idx: self.this_node_idx,
            parent_node_idx: self.parent_node_idx,
            child_nodes_idx: c,
            first_child_idx: self.first_child_idx,
            last_child_idx: self.last_child_idx,
            previous_sibiling_idx: self.previous_sibiling_idx,
            next_sibiling_idx: self.next_sibiling_idx,
        }
    }
}

impl Default for DOMNode {
    fn default() -> (r: Self)
        ensures
            r@ == default_dom_node(),
    {
        DOMNode {
            node_content: NodeContent {
                node_type: NodeType::Document,
                node_name: String::new(),
                node_value: String::new(),
            },
            this_node_idx: 0,
            parent_node_idx: 0,
            child_nodes_idx: Vec::new(),
            first_child_idx: 0,
            last_child_idx: 0,
            previous_sibiling_idx: 0,
            next_sibiling_idx: 0,
        }
    }
}

/// The value of `DOMNode::default()`: an unnamed document node whose links
/// are all 0.
pub open spec fn default_dom_node() -> DOMNodeView {
    DOMNodeView {
        node_type: NodeType::Document,
        node_name: Seq::empty(),
        node_value: Seq::empty(),
        this_node_idx: 0,
        parent_node_idx: 0,
        child_nodes_idx: Seq::empty(),
        first_child_idx: 0,
        last_child_idx: 0,
        previous_sibiling_idx: 0,
        next_sibiling_idx: 0,
    }
}

pub open spec fn lit_html() -> Seq<char> {
    seq!['h', 't', 'm', 'l']
}

pub open spec fn lit_head() -> Seq<char> {
    seq!['h', 'e', 'a', 'd']
}

pub open spec fn lit_body() -> Seq<char> {
    seq!['b', 'o', 'd', 'y']
}

pub open spec fn lit_link() -> Seq<char> {
    seq!['l', 'i', 'n', 'k']
}

pub open spec fn lit_rel() -> Seq<char> {
    seq!['r', 'e', 'l']
}

pub open spec fn lit_href() -> Seq<char> {
    seq!['h', 'r', 'e', 'f']
}

pub open spec fn lit_stylesheet() -> Seq<char> {
    seq!['s', 't', 'y', 'l', 'e', 's', 'h', 'e', 'e', 't']
}

/// Elements that hold no children, and so are never left open.
pub open spec fn void_tags() -> Seq<Seq<char>> {
    seq![
        seq!['a', 'r', 'e', 'a'],
        seq!['b', 'a', 's', 'e'],
        seq!['b', 'r'],
        seq!['c', 'o', 'l'],
        seq!['e', 'm', 'b', 'e', 'd'],
        seq!['h', 'r'],
        seq!['i', 'm', 'g'],
        seq!['i', 'n', 'p', 'u', 't'],
        seq!['l', 'i', 'n', 'k'],
        seq!['m', 'e', 't', 'a'],
        seq!['p', 'a', 'r', 'a', 'm'],
        seq!['s', 'o', 'u', 'r', 'c', 'e'],
        seq!['t', 'r', 'a', 'c', 'k'],
        seq!['w', 'b', 'r'],
        seq!['m', 'e', 'n', 'u', 'i', 't', 'e', 'm'],
        seq!['b', 'a', 's', 'e', 'f', 'o', 'n', 't'],
        seq!['b', 'g', 's', 'o', 'u', 'n', 'd'],
        seq!['f', 'r', 'a', 'm', 'e'],
        seq!['k', 'e', 'y', 'g', 'e', 'n'],
        seq!['i', 'm', 'a', 'g', 'e'],
        seq!['i', 's', 'i', 'n', 'd', 'e', 'x'],
        seq!['c', 'o', 'm', 'm', 'e', 'n', 't'],
        seq!['t', 'e', 'x', 't'],
    ]
}

pub open spec fn is_void(name: Seq<char>) -> bool {
    void_tags().contains(name)
}

/// The kind of node a token becomes.
pub open spec fn node_type_of(t: TokenType) -> NodeType {
    match t {
        TokenType::Doctype => NodeType::Document,
        TokenType::StratTag => NodeType::Element,
        TokenType::Text => NodeType::Text,
        TokenType::Comment => NodeType::Comment,
        _ => NodeType::Document,
    }
}

/// A node with no links yet.
pub open spec fn fresh_node(idx: usize, ty: NodeType, name: Seq<char>, value: Seq<char>) -> DOMNodeView {
    DOMNodeView {
        node_type: ty,
        node_name: name,
        node_value: value,
        this_node_idx: idx,
        parent_node_idx: UMAX,
        child_nodes_idx: Seq::empty(),
        first_child_idx: UMAX,
        last_child_idx: UMAX,
        previous_sibiling_idx: UMAX,
        next_sibiling_idx: UMAX,
    }
}

/// Makes `node` the last child of the node at index `p`: the parent records
/// it as a child (and as first child if it has none), the former last child
/// points to it as next sibling and it points back.
pub open spec fn link_child(tree: Seq<DOMNodeView>, p: int, node: DOMNodeView) -> (
    Seq<DOMNodeView>,
    DOMNodeView,
) {
    let pn = tree[p];
    let node1 = DOMNodeView { parent_node_idx: pn.this_node_idx, ..node };
    let pn1 = DOMNodeView {
        child_nodes_idx: pn.child_nodes_idx.push(node.this_node_idx),
        first_child_idx: if pn.first_child_idx == UMAX {
            node.this_node_idx
        } else {
            pn.first_child_idx
        },
        ..pn
    };
    let tree1 = tree.update(p, pn1);
    if pn1.last_child_idx != UMAX {
        let lc = pn1.last_child_idx as int;
        let tree2 = tree1.update(lc, DOMNodeView { next_sibiling_idx: node.this_node_idx, ..tree1[lc] });
        let node2 = DOMNodeView { previous_sibiling_idx: tree2[lc].this_node_idx, ..node1 };
        (tree2.update(p, DOMNodeView { last_child_idx: node.this_node_idx, ..tree2[p] }), node2)
    } else {
        (tree1.update(p, DOMNodeView { last_child_idx: node.this_node_idx, ..tree1[p] }), node1)
    }
}

/// Adds the attribute nodes of an element as its children, in order.
pub open spec fn add_attrs(tree: Seq<DOMNodeView>, pe: int, attrs: Seq<(Seq<char>, Seq<char>)>) -> Seq<
    DOMNodeView,
>
    decreases attrs.len(),
{
    if attrs.len() == 0 {
        tree
    } else {
        let t = add_attrs(tree, pe, attrs.drop_last());
        let a = attrs.last();
        let (t1, n) = link_child(t, pe, fresh_node(t.len() as usize, NodeType::Attribute, a.0, a.1));
        t1.push(n)
    }
}

/// Adding the node of a token: linked under the open element on top of the
/// stack (if any), left open itself unless it is a void element, then
/// followed by its attribute nodes.
pub open spec fn spec_add_node(tok: TokenView, stack: Seq<usize>, tree: Seq<DOMNodeView>) -> (
    Seq<usize>,
    Seq<DOMNodeView>,
) {
    let n = tree.len() as usize;
    let name = spec_lowercase(tok.tag_name);
    let node = fresh_node(n, node_type_of(tok.token_type), name, tok.token_data);
    let (tree1, node1) = if stack.len() > 0 {
        link_child(tree, stack.last() as int, node)
    } else {
        (tree, node)
    };
    let stack1 = if is_void(name) { stack } else { stack.push(n) };
    (stack1, add_attrs(tree1.push(node1), n as int, tok.tag_attribute))
}

/// Every open element and every last-child link points inside the tree.
pub open spec fn indices_ok(tree: Seq<DOMNodeView>, stack: Seq<usize>) -> bool {
    &&& forall|i: int| 0 <= i < stack.len() ==> #[trigger] stack[i] < tree.len()
    &&& forall|i: int|
        0 <= i < tree.len() ==> #[trigger] tree[i].last_child_idx == UMAX || tree[i].last_child_idx
            < tree.len()
}


fn link_child_exec(dom_tree: &mut Vec<DOMNode>, p: usize, node: &mut DOMNode)
    requires
        p < old(dom_tree).len(),
        old(dom_tree)@[p as int].last_child_idx == UMAX || old(dom_tree)@[p as int].last_child_idx
            < old(dom_tree).len(),
    ensures
        dom_view(final(dom_tree)@) == link_child(dom_view(old(dom_tree)@), p as int, old(node)@).0,
        final(node)@ == link_child(dom_view(old(dom_tree)@), p as int, old(node)@).1,
        final(dom_tree).len() == old(dom_tree).len(),
{
    let ghost t0 = dom_view(dom_tree@);
    let ghost n0 = node@;
    node.parent_node_idx = dom_tree[p].this_node_idx;
    dom_tree[p].child_nodes_idx.push(node.this_node_idx);
    if dom_tree[p].first_child_idx == UMAX {
        dom_tree[p].first_child_idx = node.this_node_idx;
    }
    if dom_tree[p].last_child_idx != UMAX {
        let lc = dom_tree[p].last_child_idx;
        dom_tree[lc].next_sibiling_idx = node.this_node_idx;
        node.previous_sibiling_idx = dom_tree[lc].this_node_idx;
    }
    dom_tree[p].last_child_idx = node.this_node_idx;
    assert(dom_view(dom_tree@) =~= link_child(t0, p as int, n0).0);
}


/// Two character sequences are equal.
pub(crate) fn chars_eq(a: &Vec<char>, b: &Vec<char>) -> (r: bool)
    ensures
        r == (a@ == b@),
{
    if a.len() != b.len() {
        return false;
    }
    let mut i: usize = 0;
    while i < a.len()
        invariant
            a.len() == b.len(),
            i <= a.len(),
            forall|k: int| 0 <= k < i ==> a@[k] == b@[k],
        decreases a.len() - i,
    {
        if a[i] != b[i] {
            return false;
        }
        i = i + 1;
    }
    assert(a@ =~= b@);
    true
}

fn void_tags_exec() -> (v: Vec<Vec<char>>)
    ensures
        v@.map_values(|w: Vec<char>| w@) == void_tags(),
{
    let v = vec![
        vec!['a', 'r', 'e', 'a'],
        vec!['b', 'a', 's', 'e'],
        vec!['b', 'r'],
        vec!['c', 'o', 'l'],
        vec!['e', 'm', 'b', 'e', 'd'],
        vec!['h', 'r'],
        vec!['i', 'm', 'g'],
        vec!['i', 'n', 'p', 'u', 't'],
        vec!['l', 'i', 'n', 'k'],
        vec!['m', 'e', 't', 'a'],
        vec!['p', 'a', 'r', 'a', 'm'],
        vec!['s', 'o', 'u', 'r', 'c', 'e'],
        vec!['t', 'r', 'a', 'c', 'k'],
        vec!['w', 'b', 'r'],
        vec!['m', 'e', 'n', 'u', 'i', 't', 'e', 'm'],
        vec!['b', 'a', 's', 'e', 'f', 'o', 'n', 't'],
        vec!['b', 'g', 's', 'o', 'u', 'n', 'd'],
        vec!['f', 'r', 'a', 'm', 'e'],
        vec!['k', 'e', 'y', 'g', 'e', 'n'],
        vec!['i', 'm', 'a', 'g', 'e'],
        vec!['i', 's', 'i', 'n', 'd', 'e', 'x'],
        vec!['c', 'o', 'm', 'm', 'e', 'n', 't'],
        vec!['t', 'e', 'x', 't'],
    ];
    assert(v@.map_values(|w: Vec<char>| w@) =~= void_tags());
    v
}

/// The name is one of the void elements.
fn is_void_exec(name: &Vec<char>) -> (r: bool)
    ensures
        r == is_void(name@),
{
    let tags = void_tags_exec();
    let ghost tv = tags@.map_values(|w: Vec<char>| w@);
    let mut found = false;
    let mut i: usize = 0;
    while i < tags.len()
        invariant
            tv == void_tags(),
            tv.len() == tags.len(),
            forall|k: int| 0 <= k < tags.len() ==> #[trigger] tv[k] == tags@[k]@,
            i <= tags.len(),
            found == (exists|k: int| 0 <= k < i && tv[k] == name@),
        decreases tags.len() - i,
    {
        if chars_eq(&tags[i], name) {
            found = true;
        }
        i = i + 1;
    }
    found
}

/// Lower-case form of a string, as characters.
pub(crate) fn lowercase_chars(s: &String) -> (v: Vec<char>)
    ensures
        v@ == spec_lowercase(s@),
        is_ascii_lower_word(s@) ==> v@ == s@,
{
    let l = str_to_lowercase(s.as_str());
    chars_of(l.as_str())
}

fn fresh_node_exec(idx: usize, ty: NodeType, name: String, value: String) -> (n: DOMNode)
    ensures
        n@ == fresh_node(idx, ty, name@, value@),
{
    DOMNode {
        node_content: NodeContent { node_type: ty, node_name: name, node_value: value },
        this_node_idx: idx,
        parent_node_idx: UMAX,
        child_nodes_idx: Vec::new(),
        first_child_idx: UMAX,
        last_child_idx: UMAX,
        previous_sibiling_idx: UMAX,
        next_sibiling_idx: UMAX,
    }
}

fn node_type_exec(t: TokenType) -> (r: NodeType)
    ensures
        r == node_type_of(t),
{
    match t {
        TokenType::Doctype => NodeType::Document,
        TokenType::StratTag => NodeType::Element,
        TokenType::Text => NodeType::Text,
        TokenType::Comment => NodeType::Comment,
        _ => NodeType::Document,
    }
}

/// Adds the node of `token` (and its attribute nodes) to the tree, under
/// the open element on top of the stack, and leaves it open unless it is a
/// void element. `count` is the number of nodes in the tree.
pub fn add_new_node(
    token: &Token,
    count: &mut usize,
    node_stack_idx: &mut Vec<usize>,
    dom_tree: &mut Vec<DOMNode>,
)
    requires
        *old(count) == old(dom_tree).len(),
        indices_ok(dom_view(old(dom_tree)@), old(node_stack_idx)@),
    ensures
        final(node_stack_idx)@ == spec_add_node(
            token@,
            old(node_stack_idx)@,
            dom_view(old(dom_tree)@),
        ).0,
        dom_view(final(dom_tree)@) == spec_add_node(
            token@,
            old(node_stack_idx)@,
            dom_view(old(dom_tree)@),
        ).1,
        *final(count) == final(dom_tree).len(),
        final(dom_tree).len() == old(dom_tree).len() + 1 + token.tag_attribute.len(),
        indices_ok(dom_view(final(dom_tree)@), final(node_stack_idx)@),
{
    let ghost t0 = dom_view(dom_tree@);
    let ghost s0 = node_stack_idx@;
    let name_chars = lowercase_chars(&token.tag_name);
    let name = crate::text::string_of(&name_chars);
    let mut node = fresh_node_exec(
        *count,
        node_type_exec(token.token_type),
        name,
        token.token_data.clone(),
    );
    if node_stack_idx.len() > 0 {
        let last_idx = node_stack_idx[node_stack_idx.len() - 1];
        assert(s0[s0.len() - 1] < t0.len());
        assert(t0[last_idx as int].last_child_idx == UMAX || t0[last_idx as int].last_child_idx < t0.len());
        link_child_exec(dom_tree, last_idx, &mut node);
    }
    let ghost t1 = dom_view(dom_tree@);
    if !is_void_exec(&name_chars) {
        node_stack_idx.push(node.this_node_idx);
    }
    let ghost nv = node@;
    dom_tree.push(node);
    let l = dom_tree.len();
    assert(l == *count + 1);
    *count += 1;
    assert(dom_view(dom_tree@) =~= t1.push(nv));
    let pe = dom_tree.len() - 1;
    let ghost base = dom_view(dom_tree@);
    let mut j: usize = 0;
    while j < token.tag_attribute.len()
        invariant
            pe == base.len() - 1,
            base.len() == t0.len() + 1,
            dom_tree.len() == base.len() + j,
            *count == dom_tree.len(),
            dom_view(dom_tree@) == add_attrs(base, pe as int, attrs_view(token.tag_attribute@).take(j as int)),
            j <= token.tag_attribute.len(),
            forall|i: int| 0 <= i < dom_tree.len() ==> #[trigger] dom_view(dom_tree@)[i].last_child_idx == UMAX || dom_view(dom_tree@)[i].last_child_idx < dom_tree.len(),
        decreases token.tag_attribute.len() - j,
    {
        let ghost tj = dom_view(dom_tree@);
        assert(tj[pe as int].last_child_idx == UMAX || tj[pe as int].last_child_idx < dom_tree.len());
        let mut attr = fresh_node_exec(
            *count,
            NodeType::Attribute,
            token.tag_attribute[j].0.clone(),
            token.tag_attribute[j].1.clone(),
        );
        link_child_exec(dom_tree, pe, &mut attr);
        let ghost av = attr@;
        let ghost tl = dom_view(dom_tree@);
        dom_tree.push(attr);
        let l = dom_tree.len();
        assert(l == *count + 1);
        *count += 1;
        assert(dom_view(dom_tree@) =~= tl.push(av));
        assert(attrs_view(token.tag_attribute@).take(j + 1).drop_last() =~= attrs_view(token.tag_attribute@).take(j as int));
        j = j + 1;
    }
    assert(attrs_view(token.tag_attribute@).take(j as int) =~= attrs_view(token.tag_attribute@));
}


proof fn lemma_structural_not_void()
    ensures
        !is_void(lit_html()),
        !is_void(lit_head()),
        !is_void(lit_body()),
{
    let v = void_tags();
    assert forall|i: int| 0 <= i < v.len() implies #[trigger] v[i] != lit_html() && v[i] != lit_head() && v[i] != lit_body() by {
        if v[i].len() == 4 {
            assert(v[i][0] != 'h' || v[i][1] != 't');
            assert(v[i][0] != 'h' || v[i][1] != 'e');
            assert(v[i][0] != 'b' || v[i][1] != 'o');
        }
    }
}


/// Reads the attributes of a `<link>` in order: whether one says
/// `rel="stylesheet"` (names and values compared in lower case), and the
/// value of the last `href`.
pub open spec fn css_scan(attrs: Seq<(Seq<char>, Seq<char>)>) -> (bool, Seq<char>)
    decreases attrs.len(),
{
    if attrs.len() == 0 {
        (false, Seq::empty())
    } else {
        let (ss, href) = css_scan(attrs.drop_last());
        let a = attrs.last();
        if spec_lowercase(a.0) == lit_rel() && spec_lowercase(a.1) == lit_stylesheet() {
            (true, href)
        } else if spec_lowercase(a.0) == lit_href() {
            (ss, a.1)
        } else {
            (ss, href)
        }
    }
}

/// The stylesheet a `<link>` points to: its last `href` when it is marked
/// as a stylesheet, else the empty string.
pub open spec fn spec_css_path(attrs: Seq<(Seq<char>, Seq<char>)>) -> Seq<char> {
    let (ss, href) = css_scan(attrs);
    if ss {
        href
    } else {
        Seq::empty()
    }
}

fn lit_vec(which: u8) -> (v: Vec<char>)
    ensures
        which == 0 ==> v@ == lit_html(),
        which == 1 ==> v@ == lit_head(),
        which == 2 ==> v@ == lit_body(),
        which == 3 ==> v@ == lit_link(),
        which == 4 ==> v@ == lit_rel(),
        which == 5 ==> v@ == lit_href(),
        which == 6 ==> v@ == lit_stylesheet(),
{
    let v = if which == 0 {
        vec!['h', 't', 'm', 'l']
    } else if which == 1 {
        vec!['h', 'e', 'a', 'd']
    } else if which == 2 {
        vec!['b', 'o', 'd', 'y']
    } else if which == 3 {
        vec!['l', 'i', 'n', 'k']
    } else if which == 4 {
        vec!['r', 'e', 'l']
    } else if which == 5 {
        vec!['h', 'r', 'e', 'f']
    } else {
        vec!['s', 't', 'y', 'l', 'e', 's', 'h', 'e', 'e', 't']
    };
    assert(which == 0 ==> v@ =~= lit_html());
    assert(which == 1 ==> v@ =~= lit_head());
    assert(which == 2 ==> v@ =~= lit_body());
    assert(which == 3 ==> v@ =~= lit_link());
    assert(which == 4 ==> v@ =~= lit_rel());
    assert(which == 5 ==> v@ =~= lit_href());
    assert(which == 6 ==> v@ =~= lit_stylesheet());
    v
}

/// The stylesheet that a `<link>` token points to, or the empty string.
pub fn find_css_path(token: Token) -> (r: String)
    ensures
        r@ == spec_css_path(token@.tag_attribute),
{
    let attrs = &token.tag_attribute;
    let ghost av = attrs_view(attrs@);
    let mut is_stylesheet = false;
    let mut herf_link = String::new();
    let rel = lit_vec(4);
    let href = lit_vec(5);
    let stylesheet = lit_vec(6);
    let mut j: usize = 0;
    while j < attrs.len()
        invariant
            av == attrs_view(attrs@),
            j <= attrs.len(),
            rel@ == lit_rel(),
            href@ == lit_href(),
            stylesheet@ == lit_stylesheet(),
            (is_stylesheet, herf_link@) == css_scan(av.take(j as int)),
        decreases attrs.len() - j,
    {
        assert(av.take(j + 1).drop_last() =~= av.take(j as int));
        let name = lowercase_chars(&attrs[j].0);
        let value = lowercase_chars(&attrs[j].1);
        if chars_eq(&name, &rel) && chars_eq(&value, &stylesheet) {
            is_stylesheet = true;
        } else if chars_eq(&name, &href) {
            herf_link = attrs[j].1.clone();
        }
        j = j + 1;
    }
    assert(av.take(j as int) =~= av);
    if !is_stylesheet {
        herf_link = String::new();
    }
    herf_link
}

/// Insertion modes of the tree builder.
#[derive(PartialEq, Eq, Structural, Clone, Copy, Debug)]
pub enum Mode {
    Initial,
    BeforeHTML,
    BeforeHead,
    InHead,
    AfterHead,
    InBody,
    AfterBody,
    AfterAfterBody,
}

/// The state of the tree builder between two tokens.
#[verifier::ext_equal]
pub struct DomState {
    pub mode: Mode,
    pub tree: Seq<DOMNodeView>,
    pub stack: Seq<usize>,
    pub links: Seq<Seq<char>>,
}

pub open spec fn initial_dom_state() -> DomState {
    DomState { mode: Mode::Initial, tree: Seq::empty(), stack: Seq::empty(), links: Seq::empty() }
}

pub open spec fn with_node(st: DomState, tok: TokenView) -> DomState {
    let (s1, t1) = spec_add_node(tok, st.stack, st.tree);
    DomState { stack: s1, tree: t1, ..st }
}

/// An end tag closes the open element on top of the stack when its name is
/// exactly that element's name.
pub open spec fn pop_matching(st: DomState, tok: TokenView) -> DomState {
    if st.stack.len() > 0 && st.tree[st.stack.last() as int].node_name == tok.tag_name {
        DomState { stack: st.stack.drop_last(), ..st }
    } else {
        st
    }
}

pub open spec fn is_content_token(t: TokenType) -> bool {
    t == TokenType::StratTag || t == TokenType::Text || t == TokenType::Comment
}

/// One token read by the tree builder.
pub open spec fn dom_step(st: DomState, tok: TokenView) -> DomState {
    let lc = spec_lowercase(tok.tag_name);
    match st.mode {
        Mode::Initial => if tok.token_type == TokenType::Doctype {
            with_node(DomState { mode: Mode::BeforeHTML, ..st }, tok)
        } else {
            st
        },
        Mode::BeforeHTML => if tok.token_type == TokenType::StratTag && lc == lit_html() {
            with_node(DomState { mode: Mode::BeforeHead, ..st }, tok)
        } else {
            st
        },
        Mode::BeforeHead => if tok.token_type == TokenType::StratTag {
            with_node(
                DomState {
                    mode: if lc == lit_head() { Mode::InHead } else { Mode::BeforeHead },
                    ..st
                },
                tok,
            )
        } else {
            st
        },
        Mode::InHead => if is_content_token(tok.token_type) {
            let path = spec_css_path(tok.tag_attribute);
            let links = if lc == lit_link() && path.len() > 0 {
                st.links.push(path)
            } else {
                st.links
            };
            with_node(DomState { links, ..st }, tok)
        } else if tok.token_type == TokenType::EndTag {
            let s1 = pop_matching(st, tok);
            if lc == lit_head() {
                DomState { mode: Mode::AfterHead, ..s1 }
            } else {
                s1
            }
        } else {
            st
        },
        Mode::AfterHead => if tok.token_type == TokenType::StratTag {
            with_node(
                DomState {
                    mode: if lc == lit_body() { Mode::InBody } else { Mode::AfterHead },
                    ..st
                },
                tok,
            )
        } else {
            st
        },
        Mode::InBody => if is_content_token(tok.token_type) {
            with_node(st, tok)
        } else if tok.token_type == TokenType::EndTag {
            let s1 = pop_matching(st, tok);
            if lc == lit_body() {
                DomState { mode: Mode::AfterBody, ..s1 }
            } else {
                s1
            }
        } else {
            st
        },
        Mode::AfterBody => if tok.token_type == TokenType::EndTag {
            let s1 = pop_matching(st, tok);
            if lc == lit_html() {
                DomState { mode: Mode::AfterAfterBody, ..s1 }
            } else {
                s1
            }
        } else {
            st
        },
        Mode::AfterAfterBody => st,
    }
}

/// The tree builder after reading `tokens`.
pub open spec fn dom_run(tokens: Seq<TokenView>) -> DomState
    decreases tokens.len(),
{
    if tokens.len() == 0 {
        initial_dom_state()
    } else {
        dom_step(dom_run(tokens.drop_last()), tokens.last())
    }
}

pub open spec fn strings_view(v: Seq<String>) -> Seq<Seq<char>> {
    v.map_values(|s: String| s@)
}

/// Some open element at or above position `lo` of the stack has the name.
pub open spec fn open_named(st: DomState, name: Seq<char>, lo: int) -> bool {
    exists|q: int| lo <= q < st.stack.len() && #[trigger] st.tree[st.stack[q] as int].node_name == name
}

/// In the modes that close elements, the stack holds an open `html`
/// element (and, inside the head or the body, an open `head` or `body`
/// above it), so an end tag always finds an element on the stack.
pub open spec fn mode_inv(st: DomState) -> bool {
    match st.mode {
        Mode::BeforeHead | Mode::AfterHead | Mode::AfterBody => open_named(st, lit_html(), 0),
        Mode::InHead => exists|q: int, p: int|
            0 <= q < p < st.stack.len() && #[trigger] st.tree[st.stack[q] as int].node_name == lit_html()
                && #[trigger] st.tree[st.stack[p] as int].node_name == lit_head(),
        Mode::InBody => exists|q: int, p: int|
            0 <= q < p < st.stack.len() && #[trigger] st.tree[st.stack[q] as int].node_name == lit_html()
                && #[trigger] st.tree[st.stack[p] as int].node_name == lit_body(),
        _ => true,
    }
}


/// Every last-child link points inside the tree.
pub open spec fn lasts_ok(tree: Seq<DOMNodeView>) -> bool {
    forall|i: int|
        0 <= i < tree.len() ==> #[trigger] tree[i].last_child_idx == UMAX || tree[i].last_child_idx
            < tree.len()
}

proof fn lemma_link_child_names(tree: Seq<DOMNodeView>, p: int, node: DOMNodeView)
    requires
        0 <= p < tree.len(),
        lasts_ok(tree),
        node.this_node_idx == tree.len(),
        node.last_child_idx == UMAX,
    ensures
        link_child(tree, p, node).0.len() == tree.len(),
        forall|i: int|
            0 <= i < tree.len() ==> #[trigger] link_child(tree, p, node).0[i].node_name
                == tree[i].node_name,
        link_child(tree, p, node).1.node_name == node.node_name,
        link_child(tree, p, node).1.last_child_idx == UMAX,
        lasts_ok(link_child(tree, p, node).0.push(link_child(tree, p, node).1)),
{
    assert(tree[p].last_child_idx == UMAX || tree[p].last_child_idx < tree.len());
    let (t, n) = link_child(tree, p, node);
    let t2 = t.push(n);
    assert forall|i: int| 0 <= i < t2.len() implies #[trigger] t2[i].last_child_idx == UMAX
        || t2[i].last_child_idx < t2.len() by {
        if i < tree.len() {
            assert(tree[i].last_child_idx == UMAX || tree[i].last_child_idx < tree.len());
        }
    }
}

proof fn lemma_add_attrs_names(tree: Seq<DOMNodeView>, pe: int, attrs: Seq<(Seq<char>, Seq<char>)>)
    requires
        0 <= pe < tree.len(),
        lasts_ok(tree),
        tree.len() + attrs.len() <= usize::MAX,
    ensures
        add_attrs(tree, pe, attrs).len() == tree.len() + attrs.len(),
        forall|i: int|
            0 <= i < tree.len() ==> #[trigger] add_attrs(tree, pe, attrs)[i].node_name
                == tree[i].node_name,
        lasts_ok(add_attrs(tree, pe, attrs)),
    decreases attrs.len(),
{
    if attrs.len() > 0 {
        lemma_add_attrs_names(tree, pe, attrs.drop_last());
        let t = add_attrs(tree, pe, attrs.drop_last());
        let a = attrs.last();
        lemma_link_child_names(t, pe, fresh_node(t.len() as usize, NodeType::Attribute, a.0, a.1));
    }
}

/// Adding a node keeps the names of the nodes already there, gives the new
/// node (at the old length) the lower-cased tag name, and leaves it open
/// unless it is void.
proof fn lemma_add_node_names(tok: TokenView, stack: Seq<usize>, tree: Seq<DOMNodeView>)
    requires
        indices_ok(tree, stack),
        tree.len() + 1 + tok.tag_attribute.len() <= usize::MAX,
    ensures
        spec_add_node(tok, stack, tree).1.len() == tree.len() + 1 + tok.tag_attribute.len(),
        forall|i: int|
            0 <= i < tree.len() ==> #[trigger] spec_add_node(tok, stack, tree).1[i].node_name
                == tree[i].node_name,
        spec_add_node(tok, stack, tree).1[tree.len() as int].node_name == spec_lowercase(
            tok.tag_name,
        ),
        spec_add_node(tok, stack, tree).0 == (if is_void(spec_lowercase(tok.tag_name)) {
            stack
        } else {
            stack.push(tree.len() as usize)
        }),
{
    let n = tree.len() as usize;
    let name = spec_lowercase(tok.tag_name);
    let node = fresh_node(n, node_type_of(tok.token_type), name, tok.token_data);
    assert(lasts_ok(tree));
    if stack.len() > 0 {
        assert(stack[stack.len() - 1] < tree.len());
        lemma_link_child_names(tree, stack.last() as int, node);
    }
    let (tree1, node1) = if stack.len() > 0 {
        link_child(tree, stack.last() as int, node)
    } else {
        (tree, node)
    };
    lemma_add_attrs_names(tree1.push(node1), n as int, tok.tag_attribute);
    assert forall|i: int| 0 <= i < tree.len() implies #[trigger] spec_add_node(tok, stack, tree).1[i].node_name
        == tree[i].node_name by {
        assert(tree1.push(node1)[i] == tree1[i]);
    }
    assert(tree1.push(node1)[tree.len() as int] == node1);
}

pub open spec fn dom_state_of(
    mode: Mode,
    tree: Seq<DOMNode>,
    stack: Seq<usize>,
    links: Seq<String>,
) -> DomState {
    DomState { mode, tree: dom_view(tree), stack, links: strings_view(links) }
}


proof fn lemma_lits_ascii_lower()
    ensures
        is_ascii_lower_word(lit_html()),
        is_ascii_lower_word(lit_head()),
        is_ascii_lower_word(lit_body()),
{
    assert forall|i: int| 0 <= i < lit_html().len() implies 'a' <= #[trigger] lit_html()[i] <= 'z' by {}
    assert forall|i: int| 0 <= i < lit_head().len() implies 'a' <= #[trigger] lit_head()[i] <= 'z' by {}
    assert forall|i: int| 0 <= i < lit_body().len() implies 'a' <= #[trigger] lit_body()[i] <= 'z' by {}
}

/// Closes the element on top of the stack if the end tag names it exactly.
/// Returns whether it did.
fn pop_matching_exec(tok: &Token, stack: &mut Vec<usize>, tree: &Vec<DOMNode>) -> (popped: bool)
    requires
        old(stack).len() > 0,
        indices_ok(dom_view(tree@), old(stack)@),
    ensures
        final(stack)@ == pop_matching(dom_state_of(Mode::Initial, tree@, old(stack)@, Seq::empty()), tok@).stack,
        popped == (final(stack)@ != old(stack)@),
        popped ==> tree@[old(stack)@.last() as int].node_content.node_name@ == tok@.tag_name,
{
    let last_idx = stack[stack.len() - 1];
    assert(old(stack)@[old(stack)@.len() - 1] < tree@.len());
    if tree[last_idx].node_content.node_name == tok.tag_name {
        stack.pop();
        assert(stack@.len() < old(stack)@.len());
        true
    } else {
        false
    }
}

/// One token read by the tree builder.
fn dom_step_exec(
    mode: &mut Mode,
    tok: &Token,
    count: &mut usize,
    stack: &mut Vec<usize>,
    tree: &mut Vec<DOMNode>,
    links: &mut Vec<String>,
)
    requires
        *old(count) == old(tree).len(),
        indices_ok(dom_view(old(tree)@), old(stack)@),
        mode_inv(dom_state_of(*old(mode), old(tree)@, old(stack)@, old(links)@)),
    ensures
        dom_state_of(*final(mode), final(tree)@, final(stack)@, final(links)@) == dom_step(
            dom_state_of(*old(mode), old(tree)@, old(stack)@, old(links)@),
            tok@,
        ),
        *final(count) == final(tree).len(),
        indices_ok(dom_view(final(tree)@), final(stack)@),
        mode_inv(dom_state_of(*final(mode), final(tree)@, final(stack)@, final(links)@)),
{
    let ghost st0 = dom_state_of(*mode, tree@, stack@, links@);
    let ghost tok_v = tok@;
    proof {
        lemma_lits_ascii_lower();
        lemma_structural_not_void();
    }
    let lc = lowercase_chars(&tok.tag_name);
    let is_html = chars_eq(&lc, &lit_vec(0));
    let is_head = chars_eq(&lc, &lit_vec(1));
    let is_body = chars_eq(&lc, &lit_vec(2));
    match *mode {
        Mode::Initial => {
            if tok.token_type == TokenType::Doctype {
                *mode = Mode::BeforeHTML;
                add_new_node(tok, count, stack, tree);
            }
        },
        Mode::BeforeHTML => {
            if tok.token_type == TokenType::StratTag && is_html {
                *mode = Mode::BeforeHead;
                add_new_node(tok, count, stack, tree);
                proof {
                    lemma_add_node_names(tok_v, st0.stack, st0.tree);
                    let st1 = dom_state_of(*mode, tree@, stack@, links@);
                    assert(st1.tree[st1.stack[st0.stack.len() as int] as int].node_name == lit_html());
                }
            }
        },
        Mode::BeforeHead => {
            if tok.token_type == TokenType::StratTag {
                if is_head {
                    *mode = Mode::InHead;
                }
                add_new_node(tok, count, stack, tree);
                proof {
                    lemma_add_node_names(tok_v, st0.stack, st0.tree);
                    let st1 = dom_state_of(*mode, tree@, stack@, links@);
                    let q = choose|q: int| 0 <= q < st0.stack.len() && #[trigger] st0.tree[st0.stack[q] as int].node_name == lit_html();
                    assert(st1.stack[q] == st0.stack[q]);
                    assert(st1.tree[st1.stack[q] as int].node_name == lit_html());
                    if is_head {
                        let p = st0.stack.len() as int;
                        assert(st1.tree[st1.stack[p] as int].node_name == lit_head());
                    }
                }
            }
        },
        Mode::InHead => {
            if tok.token_type == TokenType::StratTag || tok.token_type == TokenType::Text
                || tok.token_type == TokenType::Comment {
                if chars_eq(&lc, &lit_vec(3)) {
                    let link = find_css_path(tok.clone());
                    if !link.as_str().is_empty() {
                        let ghost l0 = links@;
                        links.push(link);
                        assert(strings_view(links@) =~= strings_view(l0).push(link@));
                    }
                }
                add_new_node(tok, count, stack, tree);
                proof {
                    lemma_add_node_names(tok_v, st0.stack, st0.tree);
                    let st1 = dom_state_of(*mode, tree@, stack@, links@);
                    let (q, p) = choose|q: int, p: int|
                        0 <= q < p < st0.stack.len() && #[trigger] st0.tree[st0.stack[q] as int].node_name == lit_html()
                            && #[trigger] st0.tree[st0.stack[p] as int].node_name == lit_head();
                    assert(st1.stack[q] == st0.stack[q] && st1.stack[p] == st0.stack[p]);
                    assert(st1.tree[st1.stack[q] as int].node_name == lit_html());
                    assert(st1.tree[st1.stack[p] as int].node_name == lit_head());
                }
            } else if tok.token_type == TokenType::EndTag {
                let ghost (q, p) = choose|q: int, p: int|
                    0 <= q < p < st0.stack.len() && #[trigger] st0.tree[st0.stack[q] as int].node_name == lit_html()
                        && #[trigger] st0.tree[st0.stack[p] as int].node_name == lit_head();
                let popped = pop_matching_exec(tok, stack, tree);
                if is_head {
                    *mode = Mode::AfterHead;
                }
                proof {
                    let st1 = dom_state_of(*mode, tree@, stack@, links@);
                    if popped && p == st0.stack.len() - 1 {
                        assert(tok_v.tag_name == lit_head());
                    }
                    if !is_head {
                        assert(p < st1.stack.len());
                        assert(st1.stack[q] == st0.stack[q] && st1.stack[p] == st0.stack[p]);
                        assert(st1.tree[st1.stack[q] as int].node_name == lit_html());
                        assert(st1.tree[st1.stack[p] as int].node_name == lit_head());
                    } else {
                        assert(q < st1.stack.len());
                        assert(st1.stack[q] == st0.stack[q]);
                        assert(st1.tree[st1.stack[q] as int].node_name == lit_html());
                    }
                }
            }
        },
        Mode::AfterHead => {
            if tok.token_type == TokenType::StratTag {
                if is_body {
                    *mode = Mode::InBody;
                }
                add_new_node(tok, count, stack, tree);
                proof {
                    lemma_add_node_names(tok_v, st0.stack, st0.tree);
                    let st1 = dom_state_of(*mode, tree@, stack@, links@);
                    let q = choose|q: int| 0 <= q < st0.stack.len() && #[trigger] st0.tree[st0.stack[q] as int].node_name == lit_html();
                    assert(st1.stack[q] == st0.stack[q]);
                    assert(st1.tree[st1.stack[q] as int].node_name == lit_html());
                    if is_body {
                        let p = st0.stack.len() as int;
                        assert(st1.tree[st1.stack[p] as int].node_name == lit_body());
                    }
                }
            }
        },
        Mode::InBody => {
            if tok.token_type == TokenType::StratTag || tok.token_type == TokenType::Text
                || tok.token_type == TokenType::Comment {
                add_new_node(tok, count, stack, tree);
                proof {
                    lemma_add_node_names(tok_v, st0.stack, st0.tree);
                    let st1 = dom_state_of(*mode, tree@, stack@, links@);
                    let (q, p) = choose|q: int, p: int|
                        0 <= q < p < st0.stack.len() && #[trigger] st0.tree[st0.stack[q] as int].node_name == lit_html()
                            && #[trigger] st0.tree[st0.stack[p] as int].node_name == lit_body();
                    assert(st1.stack[q] == st0.stack[q] && st1.stack[p] == st0.stack[p]);
                    assert(st1.tree[st1.stack[q] as int].node_name == lit_html());
                    assert(st1.tree[st1.stack[p] as int].node_name == lit_body());
                }
            } else if tok.token_type == TokenType::EndTag {
                let ghost (q, p) = choose|q: int, p: int|
                    0 <= q < p < st0.stack.len() && #[trigger] st0.tree[st0.stack[q] as int].node_name == lit_html()
                        && #[trigger] st0.tree[st0.stack[p] as int].node_name == lit_body();
                let popped = pop_matching_exec(tok, stack, tree);
                if is_body {
                    *mode = Mode::AfterBody;
                }
                proof {
                    let st1 = dom_state_of(*mode, tree@, stack@, links@);
                    if popped && p == st0.stack.len() - 1 {
                        assert(tok_v.tag_name == lit_body());
                    }
                    if !is_body {
                        assert(p < st1.stack.len());
                        assert(st1.stack[q] == st0.stack[q] && st1.stack[p] == st0.stack[p]);
                        assert(st1.tree[st1.stack[q] as int].node_name == lit_html());
                        assert(st1.tree[st1.stack[p] as int].node_name == lit_body());
                    } else {
                        assert(q < st1.stack.len());
                        assert(st1.stack[q] == st0.stack[q]);
                        assert(st1.tree[st1.stack[q] as int].node_name == lit_html());
                    }
                }
            }
        },
        Mode::AfterBody => {
            if tok.token_type == TokenType::EndTag {
                let ghost q = choose|q: int| 0 <= q < st0.stack.len() && #[trigger] st0.tree[st0.stack[q] as int].node_name == lit_html();
                let popped = pop_matching_exec(tok, stack, tree);
                if is_html {
                    *mode = Mode::AfterAfterBody;
                }
                proof {
                    let st1 = dom_state_of(*mode, tree@, stack@, links@);
                    if popped && q == st0.stack.len() - 1 {
                        assert(tok_v.tag_name == lit_html());
                    }
                    if !is_html {
                        assert(q < st1.stack.len());
                        assert(st1.stack[q] == st0.stack[q]);
                        assert(st1.tree[st1.stack[q] as int].node_name == lit_html());
                    }
                }
            }
        },
        Mode::AfterAfterBody => {},
    }
}


/// Builds the DOM tree of a page from its tokens, and collects the
/// stylesheet links found in its head.
#[allow(non_snake_case)]
pub fn create_DOM_tree(tokens: Vec<Token>) -> (r: (Vec<DOMNode>, Vec<String>))
    ensures
        dom_view(r.0@) == dom_run(tokens_view(tokens@)).tree,
        strings_view(r.1@) == dom_run(tokens_view(tokens@)).links,
        node_bound(tokens_view(tokens@)) < UMAX ==> wf_tree(dom_view(r.0@)),
{
    let ghost tv = tokens_view(tokens@);
    proof {
        if node_bound(tv) < UMAX {
            law_dom_tree_well_formed(tv);
        }
    }
    let mut mode = Mode::Initial;
    let mut dom_tree: Vec<DOMNode> = Vec::new();
    let mut node_stack_idx: Vec<usize> = Vec::new();
    let mut links_vec: Vec<String> = Vec::new();
    let mut count: usize = 0;
    let mut i: usize = 0;
    assert(dom_state_of(mode, dom_tree@, node_stack_idx@, links_vec@) =~= initial_dom_state());
    assert(tv.take(0) =~= Seq::<TokenView>::empty());
    while i < tokens.len()
        invariant
            tv == tokens_view(tokens@),
            i <= tokens.len(),
            dom_state_of(mode, dom_tree@, node_stack_idx@, links_vec@) == dom_run(tv.take(i as int)),
            count == dom_tree.len(),
            indices_ok(dom_view(dom_tree@), node_stack_idx@),
            mode_inv(dom_state_of(mode, dom_tree@, node_stack_idx@, links_vec@)),
        decreases tokens.len() - i,
    {
        dom_step_exec(&mut mode, &tokens[i], &mut count, &mut node_stack_idx, &mut dom_tree, &mut links_vec);
        assert(tv.take(i + 1).drop_last() =~= tv.take(i as int));
        i = i + 1;
    }
    assert(tv.take(i as int) =~= tv);
    (dom_tree, links_vec)
}


/// Each node's own index is its position.
#[verifier::opaque]
pub open spec fn wf_index(t: Seq<DOMNodeView>) -> bool {
    forall|i: int| 0 <= i < t.len() ==> #[trigger] t[i].this_node_idx == i
}

/// The children of a node come after it, inside the tree, and point back to
/// it as their parent.
#[verifier::opaque]
pub open spec fn wf_children(t: Seq<DOMNodeView>) -> bool {
    forall|i: int, k: int|
        0 <= i < t.len() && 0 <= k < t[i].child_nodes_idx.len() ==> i
            < #[trigger] t[i].child_nodes_idx[k] < t.len() && t[t[i].child_nodes_idx[k] as int].parent_node_idx
            == i
}

/// The children of a node are listed in increasing order.
#[verifier::opaque]
pub open spec fn wf_sorted(t: Seq<DOMNodeView>) -> bool {
    forall|i: int, k1: int, k2: int|
        0 <= i < t.len() && 0 <= k1 < k2 < t[i].child_nodes_idx.len() ==> #[trigger] t[i].child_nodes_idx[k1]
            < #[trigger] t[i].child_nodes_idx[k2]
}

/// The first and last child links are the ends of the child list (`UMAX`
/// when it is empty).
#[verifier::opaque]
pub open spec fn wf_first_last(t: Seq<DOMNodeView>) -> bool {
    forall|i: int|
        0 <= i < t.len() ==> {
            &&& #[trigger] t[i].first_child_idx == if t[i].child_nodes_idx.len() == 0 {
                UMAX
            } else {
                t[i].child_nodes_idx[0]
            }
            &&& t[i].last_child_idx == if t[i].child_nodes_idx.len() == 0 {
                UMAX
            } else {
                t[i].child_nodes_idx.last()
            }
        }
}

/// The sibling links of the children of a node follow the child list.
#[verifier::opaque]
pub open spec fn wf_siblings(t: Seq<DOMNodeView>) -> bool {
    forall|i: int, k: int|
        0 <= i < t.len() && 0 <= k < t[i].child_nodes_idx.len() ==> {
            &&& t[#[trigger] t[i].child_nodes_idx[k] as int].previous_sibiling_idx == if k == 0 {
                UMAX
            } else {
                t[i].child_nodes_idx[k - 1]
            }
            &&& t[t[i].child_nodes_idx[k] as int].next_sibiling_idx == if k == t[i].child_nodes_idx.len()
                - 1 {
                UMAX
            } else {
                t[i].child_nodes_idx[k + 1]
            }
        }
}

/// A node without a parent has no siblings; a node with one comes after it
/// and is in its child list.
#[verifier::opaque]
pub open spec fn wf_parent(t: Seq<DOMNodeView>) -> bool {
    forall|j: int|
        0 <= j < t.len() ==> if #[trigger] t[j].parent_node_idx == UMAX {
            t[j].previous_sibiling_idx == UMAX && t[j].next_sibiling_idx == UMAX
        } else {
            t[j].parent_node_idx < j && t[t[j].parent_node_idx as int].child_nodes_idx.contains(
                j as usize,
            )
        }
}

/// The tree is well formed: indices, parent, child, first/last and sibling
/// links all agree with one another.
pub open spec fn wf_tree(t: Seq<DOMNodeView>) -> bool {
    &&& wf_index(t)
    &&& wf_children(t)
    &&& wf_sorted(t)
    &&& wf_first_last(t)
    &&& wf_siblings(t)
    &&& wf_parent(t)
}

/// A node added with no parent keeps the tree well formed.
proof fn lemma_push_root_wf(t: Seq<DOMNodeView>, node: DOMNodeView)
    requires
        wf_tree(t),
        t.len() < UMAX,
        node == fresh_node(t.len() as usize, node.node_type, node.node_name, node.node_value),
    ensures
        wf_tree(t.push(node)),
{
    reveal(wf_index);
    reveal(wf_children);
    reveal(wf_sorted);
    reveal(wf_first_last);
    reveal(wf_siblings);
    reveal(wf_parent);
    let f = t.push(node);
    assert forall|i: int| 0 <= i < t.len() implies #[trigger] f[i] == t[i] by {}
    assert(wf_index(f));
    assert(wf_children(f));
    assert(wf_sorted(f));
    assert(wf_first_last(f));
    assert(wf_siblings(f));
    assert forall|j: int| 0 <= j < f.len() implies if #[trigger] f[j].parent_node_idx == UMAX {
        f[j].previous_sibiling_idx == UMAX && f[j].next_sibiling_idx == UMAX
    } else {
        f[j].parent_node_idx < j && f[f[j].parent_node_idx as int].child_nodes_idx.contains(j as usize)
    } by {
        if j < t.len() {
            assert(f[j] == t[j]);
            if t[j].parent_node_idx != UMAX {
                assert(f[t[j].parent_node_idx as int] == t[t[j].parent_node_idx as int]);
            }
        }
    }
}

/// The former last child of node `p`, or -1 when it has no child.
pub open spec fn last_child_pos(t: Seq<DOMNodeView>, p: int) -> int {
    if t[p].child_nodes_idx.len() > 0 {
        t[p].child_nodes_idx.last() as int
    } else {
        -1
    }
}

/// `f` is `t` after a new node (at index `t.len()`) is linked as the last
/// child of node `p`.
pub open spec fn linked_shape(t: Seq<DOMNodeView>, p: int, f: Seq<DOMNodeView>) -> bool {
    let L = t.len() as int;
    let c = t[p].child_nodes_idx;
    let lc = last_child_pos(t, p);
    &&& f.len() == L + 1
    &&& f[L].this_node_idx == L
    &&& f[L].parent_node_idx == p
    &&& f[L].child_nodes_idx.len() == 0
    &&& f[L].first_child_idx == UMAX
    &&& f[L].last_child_idx == UMAX
    &&& f[L].next_sibiling_idx == UMAX
    &&& f[L].previous_sibiling_idx == if c.len() > 0 { c.last() } else { UMAX }
    &&& f[p].child_nodes_idx == c.push(L as usize)
    &&& f[p].this_node_idx == t[p].this_node_idx
    &&& f[p].parent_node_idx == t[p].parent_node_idx
    &&& f[p].previous_sibiling_idx == t[p].previous_sibiling_idx
    &&& f[p].next_sibiling_idx == t[p].next_sibiling_idx
    &&& f[p].first_child_idx == if c.len() > 0 { t[p].first_child_idx } else { L as usize }
    &&& f[p].last_child_idx == L
    &&& (c.len() > 0 ==> f[lc] == DOMNodeView { next_sibiling_idx: L as usize, ..t[lc] })
    &&& forall|x: int| 0 <= x < L && x != p && x != lc ==> #[trigger] f[x] == t[x]
}

/// What the well-formedness of `t` says about node `p` and its last child.
pub open spec fn link_site_ok(t: Seq<DOMNodeView>, p: int) -> bool {
    let c = t[p].child_nodes_idx;
    let lc = last_child_pos(t, p);
    &&& 0 <= p < t.len()
    &&& t.len() < UMAX
    &&& t[p].this_node_idx == p
    &&& t[p].last_child_idx == if c.len() > 0 { c.last() } else { UMAX }
    &&& t[p].first_child_idx == if c.len() > 0 { c[0] } else { UMAX }
    &&& (c.len() > 0 ==> c[0] < t.len())
    &&& (c.len() > 0 ==> p < lc < t.len() && t[lc].parent_node_idx == p && t[lc].this_node_idx == lc)
}

proof fn lemma_link_site(t: Seq<DOMNodeView>, p: int)
    requires
        wf_tree(t),
        t.len() < UMAX,
        0 <= p < t.len(),
    ensures
        link_site_ok(t, p),
{
    reveal(wf_index);
    reveal(wf_children);
    reveal(wf_first_last);
    let c = t[p].child_nodes_idx;
    assert(t[p].this_node_idx == p);
    assert(t[p].first_child_idx == if c.len() == 0 { UMAX } else { c[0] });
    assert(t[p].last_child_idx == if c.len() > 0 { c.last() } else { UMAX });
    if c.len() > 0 {
        assert(p < c[c.len() - 1] < t.len());
        assert(p < c[0] < t.len());
        assert(t[c.last() as int].this_node_idx == c.last());
    }
}

proof fn lemma_link_shape(t: Seq<DOMNodeView>, p: int, node: DOMNodeView)
    requires
        link_site_ok(t, p),
        node == fresh_node(t.len() as usize, node.node_type, node.node_name, node.node_value),
    ensures
        linked_shape(t, p, link_child(t, p, node).0.push(link_child(t, p, node).1)),
{
    let L = t.len() as int;
    let c = t[p].child_nodes_idx;
    let lc = last_child_pos(t, p);
    let pn = t[p];
    let node1 = DOMNodeView { parent_node_idx: pn.this_node_idx, ..node };
    let pn1 = DOMNodeView {
        child_nodes_idx: pn.child_nodes_idx.push(node.this_node_idx),
        first_child_idx: if pn.first_child_idx == UMAX {
            node.this_node_idx
        } else {
            pn.first_child_idx
        },
        ..pn
    };
    let tree1 = t.update(p, pn1);
    let (t3, nd) = link_child(t, p, node);
    let f = t3.push(nd);
    if c.len() > 0 {
        let tree2 = tree1.update(lc, DOMNodeView { next_sibiling_idx: node.this_node_idx, ..tree1[lc] });
        assert(t3 == tree2.update(p, DOMNodeView { last_child_idx: node.this_node_idx, ..tree2[p] }));
        assert(nd == DOMNodeView { previous_sibiling_idx: tree2[lc].this_node_idx, ..node1 });
        assert(tree2[lc] == DOMNodeView { next_sibiling_idx: L as usize, ..t[lc] });
        assert(f[lc] == tree2[lc]);
        assert forall|x: int| 0 <= x < L && x != p && x != lc implies #[trigger] f[x] == t[x] by {
            assert(f[x] == tree2[x]);
        }
        assert(f.len() == L + 1);
        assert(f[L].this_node_idx == L);
        assert(f[L].parent_node_idx == p);
        assert(f[L].previous_sibiling_idx == c.last());
        assert(f[p].child_nodes_idx == c.push(L as usize));
        assert(f[p].this_node_idx == t[p].this_node_idx);
        assert(f[p].first_child_idx == t[p].first_child_idx);
        assert(f[p].last_child_idx == L);
        assert(f[lc] == DOMNodeView { next_sibiling_idx: L as usize, ..t[lc] });
    } else {
        assert(t3 == tree1.update(p, DOMNodeView { last_child_idx: node.this_node_idx, ..tree1[p] }));
        assert(nd == node1);
        assert forall|x: int| 0 <= x < L && x != p && x != lc implies #[trigger] f[x] == t[x] by {
            assert(f[x] == t3[x]);
        }
    }
}

proof fn lemma_linked_index(t: Seq<DOMNodeView>, p: int, f: Seq<DOMNodeView>)
    requires
        wf_index(t),
        link_site_ok(t, p),
        linked_shape(t, p, f),
    ensures
        wf_index(f),
{
    reveal(wf_index);
    let L = t.len() as int;
    let lc = last_child_pos(t, p);
    assert forall|i: int| 0 <= i < f.len() implies #[trigger] f[i].this_node_idx == i by {
        if i < L && i != p && i != lc {
            assert(f[i] == t[i]);
        }
    }
}

proof fn lemma_linked_children(t: Seq<DOMNodeView>, p: int, f: Seq<DOMNodeView>)
    requires
        wf_children(t),
        link_site_ok(t, p),
        linked_shape(t, p, f),
    ensures
        wf_children(f),
{
    reveal(wf_children);
    let L = t.len() as int;
    let c = t[p].child_nodes_idx;
    let lc = last_child_pos(t, p);
    assert forall|i: int, k: int| 0 <= i < f.len() && 0 <= k < f[i].child_nodes_idx.len() implies i
        < #[trigger] f[i].child_nodes_idx[k] < f.len() && f[f[i].child_nodes_idx[k] as int].parent_node_idx
        == i by {
        if i == p {
            if k < c.len() {
                assert(f[i].child_nodes_idx[k] == c[k]);
                let x = c[k] as int;
                assert(p < x < L);
                assert(t[x].parent_node_idx == p);
                if x != lc {
                    assert(f[x] == t[x]);
                }
            }
        } else if i < L {
            if i != lc {
                assert(f[i] == t[i]);
            }
            let x = t[i].child_nodes_idx[k] as int;
            assert(i < x < L);
            assert(t[x].parent_node_idx == i);
            if x != lc && x != p {
                assert(f[x] == t[x]);
            }
        }
    }
}

proof fn lemma_linked_sorted(t: Seq<DOMNodeView>, p: int, f: Seq<DOMNodeView>)
    requires
        wf_sorted(t),
        wf_children(t),
        link_site_ok(t, p),
        linked_shape(t, p, f),
    ensures
        wf_sorted(f),
{
    reveal(wf_sorted);
    reveal(wf_children);
    let L = t.len() as int;
    let c = t[p].child_nodes_idx;
    let lc = last_child_pos(t, p);
    assert forall|i: int, k1: int, k2: int|
        0 <= i < f.len() && 0 <= k1 < k2 < f[i].child_nodes_idx.len() implies #[trigger] f[i].child_nodes_idx[k1]
            < #[trigger] f[i].child_nodes_idx[k2] by {
        if i == p {
            if k2 < c.len() {
                assert(c[k1] < c[k2]);
            } else {
                assert(c[k1] < L);
            }
        } else if i < L {
            if i != lc {
                assert(f[i] == t[i]);
            }
            assert(t[i].child_nodes_idx[k1] < t[i].child_nodes_idx[k2]);
        }
    }
}

proof fn lemma_linked_first_last(t: Seq<DOMNodeView>, p: int, f: Seq<DOMNodeView>)
    requires
        wf_first_last(t),
        link_site_ok(t, p),
        linked_shape(t, p, f),
    ensures
        wf_first_last(f),
{
    reveal(wf_first_last);
    let L = t.len() as int;
    let lc = last_child_pos(t, p);
    assert forall|i: int| 0 <= i < f.len() implies {
        &&& #[trigger] f[i].first_child_idx == if f[i].child_nodes_idx.len() == 0 {
            UMAX
        } else {
            f[i].child_nodes_idx[0]
        }
        &&& f[i].last_child_idx == if f[i].child_nodes_idx.len() == 0 {
            UMAX
        } else {
            f[i].child_nodes_idx.last()
        }
    } by {
        if i < L && i != p && i != lc {
            assert(f[i] == t[i]);
        }
        if i == p {
            assert(t[p].first_child_idx == if t[p].child_nodes_idx.len() == 0 {
                UMAX
            } else {
                t[p].child_nodes_idx[0]
            });
        }
        if i == lc {
            assert(t[lc].first_child_idx == f[lc].first_child_idx);
        }
    }
}

/// Field by field, what linking changes.
proof fn lemma_linked_fields(t: Seq<DOMNodeView>, p: int, f: Seq<DOMNodeView>)
    requires
        link_site_ok(t, p),
        linked_shape(t, p, f),
    ensures
        forall|x: int| 0 <= x < t.len() ==> #[trigger] f[x].previous_sibiling_idx == t[x].previous_sibiling_idx,
        forall|x: int| 0 <= x < t.len() && x != last_child_pos(t, p) ==> #[trigger] f[x].next_sibiling_idx == t[x].next_sibiling_idx,
        forall|x: int| 0 <= x < t.len() && x != p ==> #[trigger] f[x].child_nodes_idx == t[x].child_nodes_idx,
{
    let L = t.len() as int;
    let lc = last_child_pos(t, p);
    assert forall|x: int| 0 <= x < t.len() implies #[trigger] f[x].previous_sibiling_idx == t[x].previous_sibiling_idx by {
        if x != p && x != lc {
            assert(f[x] == t[x]);
        }
    }
    assert forall|x: int| 0 <= x < t.len() && x != lc implies #[trigger] f[x].next_sibiling_idx == t[x].next_sibiling_idx by {
        if x != p {
            assert(f[x] == t[x]);
        }
    }
    assert forall|x: int| 0 <= x < t.len() && x != p implies #[trigger] f[x].child_nodes_idx == t[x].child_nodes_idx by {
        if x != lc {
            assert(f[x] == t[x]);
        }
    }
}

proof fn lemma_linked_siblings(t: Seq<DOMNodeView>, p: int, f: Seq<DOMNodeView>)
    requires
        wf_siblings(t),
        wf_children(t),
        wf_sorted(t),
        link_site_ok(t, p),
        linked_shape(t, p, f),
    ensures
        wf_siblings(f),
{
    reveal(wf_siblings);
    let L = t.len() as int;
    assert forall|i: int, k: int| 0 <= i < f.len() && 0 <= k < f[i].child_nodes_idx.len() implies {
        &&& f[#[trigger] f[i].child_nodes_idx[k] as int].previous_sibiling_idx == if k == 0 {
            UMAX
        } else {
            f[i].child_nodes_idx[k - 1]
        }
        &&& f[f[i].child_nodes_idx[k] as int].next_sibiling_idx == if k == f[i].child_nodes_idx.len()
            - 1 {
            UMAX
        } else {
            f[i].child_nodes_idx[k + 1]
        }
    } by {
        lemma_linked_fields(t, p, f);
        if i == p {
            lemma_linked_siblings_at_parent(t, p, f, k);
        } else if i < L {
            lemma_linked_siblings_elsewhere(t, p, f, i, k);
        }
    }
}

proof fn lemma_linked_siblings_at_parent(t: Seq<DOMNodeView>, p: int, f: Seq<DOMNodeView>, k: int)
    requires
        wf_siblings(t),
        wf_children(t),
        wf_sorted(t),
        link_site_ok(t, p),
        linked_shape(t, p, f),
        0 <= k < f[p].child_nodes_idx.len(),
        forall|x: int| 0 <= x < t.len() ==> #[trigger] f[x].previous_sibiling_idx == t[x].previous_sibiling_idx,
        forall|x: int| 0 <= x < t.len() && x != last_child_pos(t, p) ==> #[trigger] f[x].next_sibiling_idx == t[x].next_sibiling_idx,
    ensures
        f[f[p].child_nodes_idx[k] as int].previous_sibiling_idx == if k == 0 {
            UMAX
        } else {
            f[p].child_nodes_idx[k - 1]
        },
        f[f[p].child_nodes_idx[k] as int].next_sibiling_idx == if k == f[p].child_nodes_idx.len() - 1 {
            UMAX
        } else {
            f[p].child_nodes_idx[k + 1]
        },
{
    reveal(wf_siblings);
    reveal(wf_children);
    reveal(wf_sorted);
    let L = t.len() as int;
    let c = t[p].child_nodes_idx;
    let lc = last_child_pos(t, p);
    if k < c.len() {
        let x = c[k] as int;
        assert(f[p].child_nodes_idx[k] == c[k]);
        assert(p < x < L);
        assert(t[x].previous_sibiling_idx == if k == 0 { UMAX } else { c[k - 1] });
        assert(t[x].next_sibiling_idx == if k == c.len() - 1 { UMAX } else { c[k + 1] });
        if k < c.len() - 1 {
            assert(c[k] < c[c.len() - 1]);
            assert(f[p].child_nodes_idx[k + 1] == c[k + 1]);
        }
        if k > 0 {
            assert(f[p].child_nodes_idx[k - 1] == c[k - 1]);
        }
    } else {
        if k > 0 {
            assert(f[p].child_nodes_idx[k - 1] == c[k - 1]);
        }
    }
}

proof fn lemma_linked_siblings_elsewhere(t: Seq<DOMNodeView>, p: int, f: Seq<DOMNodeView>, i: int, k: int)
    requires
        wf_siblings(t),
        wf_children(t),
        link_site_ok(t, p),
        linked_shape(t, p, f),
        0 <= i < t.len(),
        i != p,
        0 <= k < f[i].child_nodes_idx.len(),
        forall|x: int| 0 <= x < t.len() ==> #[trigger] f[x].previous_sibiling_idx == t[x].previous_sibiling_idx,
        forall|x: int| 0 <= x < t.len() && x != last_child_pos(t, p) ==> #[trigger] f[x].next_sibiling_idx == t[x].next_sibiling_idx,
        forall|x: int| 0 <= x < t.len() && x != p ==> #[trigger] f[x].child_nodes_idx == t[x].child_nodes_idx,
    ensures
        f[f[i].child_nodes_idx[k] as int].previous_sibiling_idx == if k == 0 {
            UMAX
        } else {
            f[i].child_nodes_idx[k - 1]
        },
        f[f[i].child_nodes_idx[k] as int].next_sibiling_idx == if k == f[i].child_nodes_idx.len() - 1 {
            UMAX
        } else {
            f[i].child_nodes_idx[k + 1]
        },
{
    reveal(wf_siblings);
    reveal(wf_children);
    let L = t.len() as int;
    let lc = last_child_pos(t, p);
    assert(f[i].child_nodes_idx == t[i].child_nodes_idx);
    let x = t[i].child_nodes_idx[k] as int;
    assert(i < x < L);
    assert(t[x].parent_node_idx == i);
    assert(x != lc);
    assert(t[x].previous_sibiling_idx == if k == 0 {
        UMAX
    } else {
        t[i].child_nodes_idx[k - 1]
    });
    assert(t[x].next_sibiling_idx == if k == t[i].child_nodes_idx.len() - 1 {
        UMAX
    } else {
        t[i].child_nodes_idx[k + 1]
    });
}

proof fn lemma_linked_parent(t: Seq<DOMNodeView>, p: int, f: Seq<DOMNodeView>)
    requires
        wf_parent(t),
        link_site_ok(t, p),
        linked_shape(t, p, f),
    ensures
        wf_parent(f),
{
    reveal(wf_parent);
    let L = t.len() as int;
    let c = t[p].child_nodes_idx;
    let lc = last_child_pos(t, p);
    assert forall|j: int| 0 <= j < f.len() implies if #[trigger] f[j].parent_node_idx == UMAX {
        f[j].previous_sibiling_idx == UMAX && f[j].next_sibiling_idx == UMAX
    } else {
        f[j].parent_node_idx < j && f[f[j].parent_node_idx as int].child_nodes_idx.contains(j as usize)
    } by {
        if j == L {
            assert(f[p].child_nodes_idx[c.len() as int] == L as usize);
        } else {
            let q = t[j].parent_node_idx;
            if j != p && j != lc {
                assert(f[j] == t[j]);
            }
            if q != UMAX {
                assert(t[q as int].child_nodes_idx.contains(j as usize));
                let w = choose|w: int| 0 <= w < t[q as int].child_nodes_idx.len() && t[q as int].child_nodes_idx[w] == j as usize;
                if q as int == p {
                    assert(f[p].child_nodes_idx[w] == j as usize);
                } else {
                    assert(q < L);
                    if q as int != lc {
                        assert(f[q as int] == t[q as int]);
                    }
                    assert(f[q as int].child_nodes_idx[w] == j as usize);
                }
            } else {
                assert(j != lc);
            }
        }
    }
}

/// Linking a new node as the last child of an existing node keeps the tree
/// well formed.
proof fn lemma_link_wf(t: Seq<DOMNodeView>, p: int, node: DOMNodeView)
    requires
        wf_tree(t),
        t.len() < UMAX,
        0 <= p < t.len(),
        node == fresh_node(t.len() as usize, node.node_type, node.node_name, node.node_value),
    ensures
        wf_tree(link_child(t, p, node).0.push(link_child(t, p, node).1)),
{
    lemma_link_site(t, p);
    lemma_link_shape(t, p, node);
    let f = link_child(t, p, node).0.push(link_child(t, p, node).1);
    lemma_linked_index(t, p, f);
    lemma_linked_children(t, p, f);
    lemma_linked_sorted(t, p, f);
    lemma_linked_first_last(t, p, f);
    lemma_linked_siblings(t, p, f);
    lemma_linked_parent(t, p, f);
}


proof fn lemma_add_attrs_wf(tree: Seq<DOMNodeView>, pe: int, attrs: Seq<(Seq<char>, Seq<char>)>)
    requires
        wf_tree(tree),
        0 <= pe < tree.len(),
        tree.len() + attrs.len() < UMAX,
    ensures
        wf_tree(add_attrs(tree, pe, attrs)),
        add_attrs(tree, pe, attrs).len() == tree.len() + attrs.len(),
    decreases attrs.len(),
{
    reveal(wf_index);
    reveal(wf_first_last);
    if attrs.len() > 0 {
        lemma_add_attrs_wf(tree, pe, attrs.drop_last());
        let t = add_attrs(tree, pe, attrs.drop_last());
        let a = attrs.last();
        lemma_link_wf(t, pe, fresh_node(t.len() as usize, NodeType::Attribute, a.0, a.1));
        lemma_link_site(t, pe);
        lemma_link_shape(t, pe, fresh_node(t.len() as usize, NodeType::Attribute, a.0, a.1));
    }
}

/// Every open element is a node of the tree.
pub open spec fn stack_ok(tree: Seq<DOMNodeView>, stack: Seq<usize>) -> bool {
    forall|i: int| 0 <= i < stack.len() ==> #[trigger] stack[i] < tree.len()
}

proof fn lemma_add_node_wf(tok: TokenView, stack: Seq<usize>, tree: Seq<DOMNodeView>)
    requires
        wf_tree(tree),
        stack_ok(tree, stack),
        tree.len() + 1 + tok.tag_attribute.len() < UMAX,
    ensures
        wf_tree(spec_add_node(tok, stack, tree).1),
        stack_ok(spec_add_node(tok, stack, tree).1, spec_add_node(tok, stack, tree).0),
        spec_add_node(tok, stack, tree).1.len() == tree.len() + 1 + tok.tag_attribute.len(),
{
    reveal(wf_index);
    reveal(wf_first_last);
    let n = tree.len() as usize;
    let name = spec_lowercase(tok.tag_name);
    let node = fresh_node(n, node_type_of(tok.token_type), name, tok.token_data);
    let (tree1, node1) = if stack.len() > 0 {
        link_child(tree, stack.last() as int, node)
    } else {
        (tree, node)
    };
    if stack.len() > 0 {
        assert(stack[stack.len() - 1] < tree.len());
        lemma_link_wf(tree, stack.last() as int, node);
        lemma_link_site(tree, stack.last() as int);
        lemma_link_shape(tree, stack.last() as int, node);
    } else {
        lemma_push_root_wf(tree, node);
    }
    assert(tree1.push(node1).len() == tree.len() + 1);
    lemma_add_attrs_wf(tree1.push(node1), n as int, tok.tag_attribute);
    let stack1 = if is_void(name) { stack } else { stack.push(n) };
    assert forall|i: int| 0 <= i < stack1.len() implies #[trigger] stack1[i] < spec_add_node(tok, stack, tree).1.len() by {
        if i < stack.len() {
            assert(stack1[i] == stack[i]);
        }
    }
}

/// An upper bound on the number of nodes the tokens can make: one for each
/// token and one for each attribute.
pub open spec fn node_bound(tokens: Seq<TokenView>) -> nat
    decreases tokens.len(),
{
    if tokens.len() == 0 {
        0
    } else {
        node_bound(tokens.drop_last()) + 1 + tokens.last().tag_attribute.len()
    }
}

proof fn lemma_dom_step_wf(st: DomState, tok: TokenView)
    requires
        wf_tree(st.tree),
        stack_ok(st.tree, st.stack),
        st.tree.len() + 1 + tok.tag_attribute.len() < UMAX,
    ensures
        wf_tree(dom_step(st, tok).tree),
        stack_ok(dom_step(st, tok).tree, dom_step(st, tok).stack),
        dom_step(st, tok).tree.len() <= st.tree.len() + 1 + tok.tag_attribute.len(),
{
    lemma_add_node_wf(tok, st.stack, st.tree);
    let r = dom_step(st, tok);
    let added = spec_add_node(tok, st.stack, st.tree);
    assert(r.tree == st.tree || (r.tree == added.1 && r.stack == added.0));
    assert(r.tree == st.tree ==> (r.stack == st.stack || r.stack == st.stack.drop_last()));
    if r.tree == st.tree && r.stack == st.stack.drop_last() {
        assert forall|i: int| 0 <= i < r.stack.len() implies #[trigger] r.stack[i] < r.tree.len() by {
            assert(r.stack[i] == st.stack[i]);
        }
    }
}

proof fn lemma_dom_run_wf(tokens: Seq<TokenView>)
    requires
        node_bound(tokens) < UMAX,
    ensures
        wf_tree(dom_run(tokens).tree),
        stack_ok(dom_run(tokens).tree, dom_run(tokens).stack),
        dom_run(tokens).tree.len() <= node_bound(tokens),
    decreases tokens.len(),
{
    if tokens.len() == 0 {
        reveal(wf_index);
        reveal(wf_children);
        reveal(wf_sorted);
        reveal(wf_first_last);
        reveal(wf_siblings);
        reveal(wf_parent);
    } else {
        lemma_dom_run_wf(tokens.drop_last());
        lemma_dom_step_wf(dom_run(tokens.drop_last()), tokens.last());
    }
}

/// Every tree the builder makes is well formed: each node's index is its
/// position; the children of a node come after it, in increasing order, and
/// point back to it as their parent; its first and last child links are the
/// ends of its child list; the sibling links of its children follow that
/// list; a node with a parent is in its parent's child list, and one without
/// has no siblings. (The tokens may make fewer nodes than the largest index,
/// which stands for "no node".)
pub proof fn law_dom_tree_well_formed(tokens: Seq<TokenView>)
    requires
        node_bound(tokens) < UMAX,
    ensures
        wf_tree(dom_run(tokens).tree),
{
    lemma_dom_run_wf(tokens);
}


proof fn lemma_links_nonempty(tokens: Seq<TokenView>)
    ensures
        forall|i: int| 0 <= i < dom_run(tokens).links.len() ==> #[trigger] dom_run(tokens).links[i].len() > 0,
    decreases tokens.len(),
{
    if tokens.len() > 0 {
        lemma_links_nonempty(tokens.drop_last());
        let st = dom_run(tokens.drop_last());
        let r = dom_run(tokens);
        assert forall|i: int| 0 <= i < r.links.len() implies #[trigger] r.links[i].len() > 0 by {
            if i < st.links.len() {
                assert(r.links[i] == st.links[i]);
            }
        }
    }
}

/// Every stylesheet link the builder collects is non-empty.
pub proof fn law_links_nonempty(tokens: Seq<TokenView>)
    ensures
        forall|i: int| 0 <= i < dom_run(tokens).links.len() ==> #[trigger] dom_run(tokens).links[i].len() > 0,
{
    lemma_links_nonempty(tokens);
}

/// Every last-child link of a well-formed tree points inside it.
proof fn lemma_wf_lasts_ok(t: Seq<DOMNodeView>)
    requires
        wf_tree(t),
    ensures
        lasts_ok(t),
{
    reveal(wf_first_last);
    reveal(wf_children);
    assert forall|i: int| 0 <= i < t.len() implies #[trigger] t[i].last_child_idx == UMAX
        || t[i].last_child_idx < t.len() by {
        let c = t[i].child_nodes_idx;
        assert(t[i].first_child_idx == if c.len() == 0 { UMAX } else { c[0] });
        assert(t[i].last_child_idx == if t[i].child_nodes_idx.len() == 0 {
            UMAX
        } else {
            t[i].child_nodes_idx.last()
        });
        if t[i].child_nodes_idx.len() > 0 {
            let k = t[i].child_nodes_idx.len() - 1;
            assert(i < t[i].child_nodes_idx[k] < t.len());
            assert(t[i].child_nodes_idx.last() == t[i].child_nodes_idx[k]);
        }
    }
}

/// Adding attribute nodes under `pe` leaves every node before `pe` as it
/// was, and `pe` keeps its parent.
proof fn lemma_add_attrs_keeps_before(
    tree: Seq<DOMNodeView>,
    pe: int,
    attrs: Seq<(Seq<char>, Seq<char>)>,
)
    requires
        wf_tree(tree),
        0 <= pe < tree.len(),
        tree.len() + attrs.len() < UMAX,
    ensures
        forall|x: int| 0 <= x < pe ==> #[trigger] add_attrs(tree, pe, attrs)[x] == tree[x],
        add_attrs(tree, pe, attrs)[pe].parent_node_idx == tree[pe].parent_node_idx,
    decreases attrs.len(),
{
    if attrs.len() > 0 {
        lemma_add_attrs_keeps_before(tree, pe, attrs.drop_last());
        lemma_add_attrs_wf(tree, pe, attrs.drop_last());
        let t = add_attrs(tree, pe, attrs.drop_last());
        let a = attrs.last();
        let node = fresh_node(t.len() as usize, NodeType::Attribute, a.0, a.1);
        lemma_link_site(t, pe);
        lemma_link_shape(t, pe, node);
        let f = add_attrs(tree, pe, attrs);
        assert forall|x: int| 0 <= x < pe implies #[trigger] f[x] == tree[x] by {
            assert(t[x] == tree[x]);
        }
    }
}

/// In the body, an end tag that names the open element on top of the stack
/// closes it: the stack loses its top and the tree is unchanged.
pub proof fn law_end_tag_closes_top(pre: Seq<TokenView>, tok: TokenView)
    requires
        dom_run(pre).mode == Mode::InBody,
        tok.token_type == TokenType::EndTag,
        dom_run(pre).stack.len() > 0,
        dom_run(pre).tree[dom_run(pre).stack.last() as int].node_name == tok.tag_name,
    ensures
        dom_run(pre.push(tok)).stack == dom_run(pre).stack.drop_last(),
        dom_run(pre.push(tok)).tree == dom_run(pre).tree,
{
    assert(pre.push(tok).drop_last() =~= pre);
}

/// In the body, an element that is opened and then closed by its end tag
/// leaves the stack as it was, so the node read next gets the same parent
/// as the closed element and comes right after it in that parent's child
/// list: it is the element's next sibling, not its child.
pub proof fn law_closed_element_next_is_sibling(
    pre: Seq<TokenView>,
    open: TokenView,
    close: TokenView,
    next: TokenView,
)
    requires
        dom_run(pre).mode == Mode::InBody,
        open.token_type == TokenType::StratTag,
        !is_void(spec_lowercase(open.tag_name)),
        close.token_type == TokenType::EndTag,
        close.tag_name == spec_lowercase(open.tag_name),
        spec_lowercase(close.tag_name) != lit_body(),
        is_content_token(next.token_type),
        node_bound(pre.push(open).push(close).push(next)) < UMAX,
    ensures
        dom_run(pre.push(open).push(close)).stack == dom_run(pre).stack,
        ({
            let st = dom_run(pre);
            let n = st.tree.len() as int;
            let m = n + 1 + open.tag_attribute.len();
            let t = dom_run(pre.push(open).push(close).push(next)).tree;
            &&& t.len() == m + 1 + next.tag_attribute.len()
            &&& t[m].parent_node_idx == t[n].parent_node_idx
            &&& st.stack.len() > 0 ==> t[st.stack.last() as int].child_nodes_idx
                == st.tree[st.stack.last() as int].child_nodes_idx.push(n as usize).push(m as usize)
        }),
{
    let p1 = pre.push(open);
    let p2 = p1.push(close);
    let p3 = p2.push(next);
    assert(p1.drop_last() =~= pre);
    assert(p2.drop_last() =~= p1);
    assert(p3.drop_last() =~= p2);
    assert(node_bound(p1) == node_bound(pre) + 1 + open.tag_attribute.len());
    assert(node_bound(p2) == node_bound(p1) + 1 + close.tag_attribute.len());
    assert(node_bound(p3) == node_bound(p2) + 1 + next.tag_attribute.len());
    let st = dom_run(pre);
    lemma_dom_run_wf(pre);
    let n = st.tree.len() as int;
    // the element
    lemma_wf_lasts_ok(st.tree);
    lemma_add_node_names(open, st.stack, st.tree);
    lemma_add_node_wf(open, st.stack, st.tree);
    let (stack1, tree1) = spec_add_node(open, st.stack, st.tree);
    assert(stack1 == st.stack.push(n as usize));
    assert(tree1[n].node_name == close.tag_name);
    let st1 = dom_run(p1);
    assert(st1.stack == stack1 && st1.tree == tree1 && st1.mode == Mode::InBody);
    // its end tag
    let st2 = dom_run(p2);
    assert(stack1.last() == n as usize);
    assert(st2.stack =~= st.stack);
    assert(st2.tree == tree1);
    assert(st2.mode == Mode::InBody);
    // the next node
    let m = tree1.len() as int;
    assert(m == n + 1 + open.tag_attribute.len());
    assert(stack_ok(tree1, st.stack)) by {
        assert forall|i: int| 0 <= i < st.stack.len() implies #[trigger] st.stack[i] < tree1.len() by {
            assert(st.stack[i] < st.tree.len());
        }
    }
    lemma_add_node_wf(next, st.stack, tree1);
    let node_n = fresh_node(n as usize, node_type_of(open.token_type), spec_lowercase(open.tag_name), open.token_data);
    let node_m = fresh_node(m as usize, node_type_of(next.token_type), spec_lowercase(next.tag_name), next.token_data);
    let t = dom_run(p3).tree;
    assert(t == spec_add_node(next, st.stack, tree1).1);
    if st.stack.len() > 0 {
        let p = st.stack.last() as int;
        assert(p < n);
        lemma_link_site(st.tree, p);
        lemma_link_shape(st.tree, p, node_n);
        let f1 = link_child(st.tree, p, node_n).0.push(link_child(st.tree, p, node_n).1);
        assert(st.tree.len() + 1 < UMAX);
        lemma_link_wf(st.tree, p, node_n);
        lemma_add_attrs_keeps_before(f1, n, open.tag_attribute);
        assert(tree1[p] == f1[p]);
        assert(tree1[p].child_nodes_idx == st.tree[p].child_nodes_idx.push(n as usize));
        assert(tree1[p].last_child_idx == n);
        assert(tree1[n].parent_node_idx == p);
        lemma_link_site(tree1, p);
        lemma_link_shape(tree1, p, node_m);
        let f3 = link_child(tree1, p, node_m).0.push(link_child(tree1, p, node_m).1);
        lemma_link_wf(tree1, p, node_m);
        lemma_add_attrs_keeps_before(f3, m, next.tag_attribute);
        lemma_add_attrs_wf(f3, m, next.tag_attribute);
        assert(last_child_pos(tree1, p) == n);
        assert(t[n] == f3[n]);
        assert(t[p] == f3[p]);
        assert(f3[n].parent_node_idx == p);
        assert(t[m].parent_node_idx == p);
    } else {
        let f1 = st.tree.push(node_n);
        assert(wf_tree(f1)) by {
            lemma_push_root_wf(st.tree, node_n);
        }
        lemma_add_attrs_keeps_before(f1, n, open.tag_attribute);
        let f3 = tree1.push(node_m);
        assert(wf_tree(f3)) by {
            lemma_push_root_wf(tree1, node_m);
        }
        lemma_add_attrs_keeps_before(f3, m, next.tag_attribute);
        lemma_add_attrs_wf(f3, m, next.tag_attribute);
        assert(t[n] == f3[n]);
        assert(f3[n] == tree1[n]);
    }
}

} // verus!
