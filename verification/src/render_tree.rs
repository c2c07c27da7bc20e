//! The render tree: DOM nodes paired with the style of the CSS rule whose
//! first selector names them.
use vstd::prelude::*;

use crate::css_parser::{Rule, RuleView, rules_view};
use crate::dom_tree::{DOMNode, DOMNodeView, dom_view, default_dom_node};

verus! {

/// A DOM node, the style given to it, and its children.
pub struct RenderTreeNode {
    pub dom_node: DOMNode,
    pub style_value: String,
    pub child: Vec<usize>,
}

#[verifier::ext_equal]
pub struct RenderTreeNodeView {
    pub dom_node: DOMNodeView,
    pub style_value: Seq<char>,
    pub child: Seq<usize>,
}

impl View for RenderTreeNode {
    type V = RenderTreeNodeView;

    open spec fn view(&self) -> RenderTreeNodeView {
        RenderTreeNodeView {
            dom_node: self.dom_node@,
            style_value: self.style_value@,
            child: self.child@,
        }
    }
}

pub open spec fn render_view(v: Seq<RenderTreeNode>) -> Seq<RenderTreeNodeView> {
    v.map_values(|n: RenderTreeNode| n@)
}

/// The value of `RenderTreeNode::default()`.
pub open spec fn default_render_node() -> RenderTreeNodeView {
    RenderTreeNodeView { dom_node: default_dom_node(), style_value: Seq::empty(), child: Seq::empty() }
}

impl Default for RenderTreeNode {
    fn default() -> (r: Self)
        ensures
            r@ == default_render_node(),
    {
        let r = RenderTreeNode { dom_node: DOMNode::default(), style_value: String::new(), child: Vec::new() };
        assert(r@ =~= default_render_node());
        r
    }
}

/// The DOM tree, the CSS rules, and the render tree built from them.
pub struct TreesData {
    pub dom_tree: Vec<DOMNode>,
    pub cssom_tree: Vec<Rule>,
    pub render_tree: Vec<RenderTreeNode>,
}

#[verifier::ext_equal]
pub struct TreesDataView {
    pub dom_tree: Seq<DOMNodeView>,
    pub cssom_tree: Seq<RuleView>,
    pub render_tree: Seq<RenderTreeNodeView>,
}

impl View for TreesData {
    type V = TreesDataView;

    open spec fn view(&self) -> TreesDataView {
        TreesDataView {
            dom_tree: dom_view(self.dom_tree@),
            cssom_tree: rules_view(self.cssom_tree@),
            render_tree: render_view(self.render_tree@),
        }
    }
}

impl Default for TreesData {
    fn default() -> (r: Self)
        ensures
            r@ == (TreesDataView {
                dom_tree: Seq::empty(),
                cssom_tree: Seq::empty(),
                render_tree: Seq::empty(),
            }),
    {
        let r = TreesData { dom_tree: Vec::new(), cssom_tree: Vec::new(), render_tree: Vec::new() };
        assert(r@ =~= (TreesDataView {
            dom_tree: Seq::empty(),
            cssom_tree: Seq::empty(),
            render_tree: Seq::empty(),
        }));
        r
    }
}

/// The text of the first part of the first selector of a rule.
pub open spec fn first_item_string(r: RuleView) -> Seq<char> {
    r.selectors[0].items[0].item_string
}

/// Every rule has a first selector with a first part.
pub open spec fn rules_have_first_item(css: Seq<RuleView>) -> bool {
    forall|i: int|
        0 <= i < css.len() ==> #[trigger] css[i].selectors.len() > 0
            && css[i].selectors[0].items.len() > 0
}

/// Every node's own index and children lie inside the tree, and children
/// come after their parent.
pub open spec fn forward_tree(tree: Seq<DOMNodeView>) -> bool {
    forall|i: int|
        0 <= i < tree.len() ==> {
            &&& #[trigger] tree[i].this_node_idx < tree.len()
            &&& forall|k: int|
                0 <= k < tree[i].child_nodes_idx.len() ==> i < #[trigger] tree[i].child_nodes_idx[k]
                    < tree.len()
        }
}

/// The render node of a DOM node: styled by the last rule whose first
/// selector's first part is the node's name; a default node if none is.
pub open spec fn render_node_for(node: DOMNodeView, css: Seq<RuleView>) -> RenderTreeNodeView
    decreases css.len(),
{
    if css.len() == 0 {
        default_render_node()
    } else {
        let item = first_item_string(css.last());
        if node.node_name == item {
            RenderTreeNodeView { dom_node: node, style_value: item, child: node.child_nodes_idx }
        } else {
            render_node_for(node, css.drop_last())
        }
    }
}

/// The render nodes of a depth-first walk from `cur` (a child of `parent`):
/// none when `cur` is the parent's last child, else its own render node
/// followed by those of the walks from each of its children.
pub open spec fn spec_dfs(tree: Seq<DOMNodeView>, css: Seq<RuleView>, cur: int, parent: int) -> Seq<
    RenderTreeNodeView,
>
    decreases tree.len() - cur, 1int, 0int,
{
    if cur == tree[parent].last_child_idx || !(0 <= cur < tree.len()) {
        Seq::empty()
    } else {
        seq![render_node_for(tree[cur], css)] + spec_dfs_children(
            tree,
            css,
            cur,
            tree[cur].child_nodes_idx.len() as int,
        )
    }
}

/// The walks from the first `k` children of `node`, one after the other.
pub open spec fn spec_dfs_children(tree: Seq<DOMNodeView>, css: Seq<RuleView>, node: int, k: int) -> Seq<
    RenderTreeNodeView,
>
    decreases tree.len() - node, 0int, k,
{
    if k <= 0 || k > tree[node].child_nodes_idx.len() || !(0 <= node < tree.len()) {
        Seq::empty()
    } else {
        let c = tree[node].child_nodes_idx[k - 1] as int;
        spec_dfs_children(tree, css, node, k - 1) + if node < c < tree.len() {
            spec_dfs(tree, css, c, tree[node].this_node_idx as int)
        } else {
            Seq::empty()
        }
    }
}

/// The walks from each child of `node`, in the order of its child list.
pub open spec fn child_walks(tree: Seq<DOMNodeView>, css: Seq<RuleView>, node: int) -> Seq<
    Seq<RenderTreeNodeView>,
> {
    Seq::new(
        tree[node].child_nodes_idx.len(),
        |k: int|
            spec_dfs(
                tree,
                css,
                tree[node].child_nodes_idx[k] as int,
                tree[node].this_node_idx as int,
            ),
    )
}

proof fn lemma_dfs_children_flat(tree: Seq<DOMNodeView>, css: Seq<RuleView>, node: int, k: int)
    requires
        forward_tree(tree),
        0 <= node < tree.len(),
        0 <= k <= tree[node].child_nodes_idx.len(),
    ensures
        spec_dfs_children(tree, css, node, k) == child_walks(tree, css, node).take(k).flatten(),
    decreases k,
{
    let w = child_walks(tree, css, node);
    if k == 0 {
        assert(w.take(0) =~= Seq::<Seq<RenderTreeNodeView>>::empty());
    } else {
        lemma_dfs_children_flat(tree, css, node, k - 1);
        assert(tree[node].this_node_idx < tree.len());
        let c = tree[node].child_nodes_idx[k - 1] as int;
        assert(node < c < tree.len());
        assert(w.take(k) =~= w.take(k - 1).push(w[k - 1]));
        w.take(k - 1).lemma_flatten_push(w[k - 1]);
    }
}

/// The walk from a node gives the node's own render node, then the walks
/// from its children, one after the other, in the order of its child list:
/// everything reached through one child comes before everything reached
/// through the next.
pub proof fn law_dfs_children_in_order(
    tree: Seq<DOMNodeView>,
    css: Seq<RuleView>,
    cur: int,
    parent: int,
)
    requires
        forward_tree(tree),
        0 <= parent < tree.len(),
        0 <= cur < tree.len(),
        cur != tree[parent].last_child_idx,
    ensures
        spec_dfs(tree, css, cur, parent) == seq![render_node_for(tree[cur], css)] + child_walks(
            tree,
            css,
            cur,
        ).flatten(),
{
    let n = tree[cur].child_nodes_idx.len() as int;
    lemma_dfs_children_flat(tree, css, cur, n);
    assert(child_walks(tree, css, cur).take(n) =~= child_walks(tree, css, cur));
}

/// Building and walking the render tree.
pub trait HandleRederTree: Sized + View<V = TreesDataView> {
    /// Stores the DOM tree and the CSS rules; the render tree itself is left
    /// to `dfs`, and an empty list is returned.
    fn create_render_tree(&mut self, dom_tree: Vec<DOMNode>, cssom_tree: Vec<Rule>) -> (r: Vec<
        RenderTreeNode,
    >)
        ensures
            r@.len() == 0,
            final(self)@ == (TreesDataView {
                dom_tree: dom_view(dom_tree@),
                cssom_tree: rules_view(cssom_tree@),
                ..old(self)@
            }),
    ;

    /// Walks the DOM tree depth-first from `current_node_idx`, appending a
    /// render node for each node reached. The walk stops at once when the
    /// node is the last child of `parent_node_idx`; otherwise it reads every
    /// rule's first selector part, so each rule must have one.
    fn dfs(&mut self, current_node_idx: usize, parent_node_idx: usize)
        requires
            parent_node_idx < old(self)@.dom_tree.len(),
            current_node_idx != old(self)@.dom_tree[parent_node_idx as int].last_child_idx ==> {
                &&& current_node_idx < old(self)@.dom_tree.len()
                &&& forward_tree(old(self)@.dom_tree)
                &&& rules_have_first_item(old(self)@.cssom_tree)
            },
        ensures
            final(self)@ == (TreesDataView {
                render_tree: old(self)@.render_tree + spec_dfs(
                    old(self)@.dom_tree,
                    old(self)@.cssom_tree,
                    current_node_idx as int,
                    parent_node_idx as int,
                ),
                ..old(self)@
            }),
    ;
}


impl HandleRederTree for TreesData {
    fn create_render_tree(&mut self, dom_tree: Vec<DOMNode>, cssom_tree: Vec<Rule>) -> (r: Vec<
        RenderTreeNode,
    >) {
        let result = Vec::new();
        self.dom_tree = dom_tree;
        self.cssom_tree = cssom_tree;
        result
    }

    fn dfs(&mut self, current_node_idx: usize, parent_node_idx: usize) {
        self.dfs_walk(current_node_idx, parent_node_idx, Ghost((self@.dom_tree.len() - current_node_idx) as int));
    }
}

impl TreesData {
    /// The walk of `dfs`, with the measure that shrinks at each step.
    fn dfs_walk(&mut self, current_node_idx: usize, parent_node_idx: usize, Ghost(measure): Ghost<int>)
        requires
            measure == old(self)@.dom_tree.len() - current_node_idx,
            parent_node_idx < old(self)@.dom_tree.len(),
            current_node_idx != old(self)@.dom_tree[parent_node_idx as int].last_child_idx ==> {
                &&& current_node_idx < old(self)@.dom_tree.len()
                &&& forward_tree(old(self)@.dom_tree)
                &&& rules_have_first_item(old(self)@.cssom_tree)
            },
        ensures
            final(self)@ == (TreesDataView {
                render_tree: old(self)@.render_tree + spec_dfs(
                    old(self)@.dom_tree,
                    old(self)@.cssom_tree,
                    current_node_idx as int,
                    parent_node_idx as int,
                ),
                ..old(self)@
            }),
        decreases measure,
    {
        let ghost tree = self@.dom_tree;
        let ghost css = self@.cssom_tree;
        let ghost r0 = self@.render_tree;
        if current_node_idx == self.dom_tree[parent_node_idx].last_child_idx {
            assert(self@.render_tree =~= r0 + Seq::<RenderTreeNodeView>::empty());
            return;
        }
        let current_dom_node = self.dom_tree[current_node_idx].clone();
        let ghost node = tree[current_node_idx as int];
        let mut current_render_node = RenderTreeNode::default();
        let mut j: usize = 0;
        assert(css.take(0) =~= Seq::<RuleView>::empty());
        while j < self.cssom_tree.len()
            invariant
                self@.dom_tree == tree,
                self@.cssom_tree == css,
                self@.render_tree == r0,
                rules_have_first_item(css),
                current_dom_node@ == node,
                j <= self.cssom_tree.len(),
                current_render_node@ == render_node_for(node, css.take(j as int)),
            decreases self.cssom_tree.len() - j,
        {
            assert(css[j as int].selectors.len() > 0 && css[j as int].selectors[0].items.len() > 0);
            let rule = &self.cssom_tree[j];
            assert(rule@ == css[j as int]);
            assert(rule.selectors@[0]@ == css[j as int].selectors[0]);
            let item = &rule.selectors[0].items[0].item_string;
            assert(item@ == first_item_string(css[j as int]));
            if current_dom_node.node_content.node_name == *item {
                current_render_node = RenderTreeNode {
                    dom_node: current_dom_node.clone(),
                    style_value: item.clone(),
                    child: current_dom_node.child_nodes_idx.clone(),
                };
                assert(current_render_node.child@ =~= node.child_nodes_idx);
            }
            assert(css.take(j + 1).drop_last() =~= css.take(j as int));
            j = j + 1;
        }
        assert(css.take(j as int) =~= css);
        let ghost rn = current_render_node@;
        self.render_tree.push(current_render_node);
        assert(self@.render_tree =~= r0.push(rn));
        let mut k: usize = 0;
        assert(self@.render_tree =~= r0 + seq![rn] + spec_dfs_children(tree, css, current_node_idx as int, 0));
        while k < current_dom_node.child_nodes_idx.len()
            invariant
                forward_tree(tree),
                rules_have_first_item(css),
                current_node_idx < tree.len(),
                measure == tree.len() - current_node_idx,
                self@.dom_tree == tree,
                self@.cssom_tree == css,
                current_dom_node@ == node,
                node == tree[current_node_idx as int],
                k <= current_dom_node.child_nodes_idx.len(),
                self@.render_tree == r0 + seq![rn] + spec_dfs_children(tree, css, current_node_idx as int, k as int),
            decreases current_dom_node.child_nodes_idx.len() - k,
        {
            let child_idx = current_dom_node.child_nodes_idx[k];
            assert(current_node_idx < child_idx < tree.len());
            assert(node.this_node_idx < tree.len());
            let ghost before = self@.render_tree;
            self.dfs_walk(child_idx, current_dom_node.this_node_idx, Ghost(tree.len() - child_idx));
            k = k + 1;
            assert(self@.render_tree =~= r0 + seq![rn] + spec_dfs_children(tree, css, current_node_idx as int, k as int));
        }
        assert(self@.render_tree =~= r0 + spec_dfs(tree, css, current_node_idx as int, parent_node_idx as int));
    }
}

} // verus!
