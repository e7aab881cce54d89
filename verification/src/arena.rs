//! The node arena: `id_tree`'s `Tree`, as the partition trees use it.
//!
//! Nothing in this file is proved. Each function below makes one call into
//! `id_tree` and states, over the three names declared here, what that call
//! does according to the crate's source. Everything else in the library is
//! proved against these statements.

use vstd::prelude::*;
use id_tree::{InsertBehavior, MoveBehavior, Node, NodeId, RemoveBehavior, Tree};
use crate::data::{Data, DataView};

verus! {

#[verifier::external_type_specification]
#[verifier::external_body]
#[verifier::reject_recursive_types(T)]
pub struct ExTree<T>(Tree<T>);

#[verifier::external_type_specification]
#[verifier::external_body]
pub struct ExNodeId(NodeId);

/// One node as the arena holds it: its data, the key of its parent, and the
/// keys of its children in order.
pub struct TreeNode {
    pub data: DataView,
    pub parent: Option<int>,
    pub children: Seq<int>,
}

/// What identifies a `NodeId`: two identifiers are equal exactly if their
/// keys are. The key stands for the pair of tree and slot that the
/// identifier holds.
pub uninterp spec fn node_key(id: NodeId) -> int;

/// The nodes that a tree holds, by key. A node that was detached from its
/// parent but not removed is still among them.
pub uninterp spec fn tree_nodes(tree: Tree<Data>) -> Map<int, TreeNode>;

/// The key of the tree's root, if it has one.
pub uninterp spec fn tree_root(tree: Tree<Data>) -> Option<int>;

/// Key of an optional identifier.
pub open spec fn opt_key(id: Option<NodeId>) -> Option<int> {
    match id {
        Some(id) => Some(node_key(id)),
        None => None,
    }
}

/// Keys of a list of identifiers.
pub open spec fn keys(ids: Seq<NodeId>) -> Seq<int> {
    Seq::new(ids.len(), |i: int| node_key(ids[i]))
}

/// The entries of `s` that are not `k`, in their order.
pub open spec fn without(s: Seq<int>, k: int) -> Seq<int>
    decreases s.len(),
{
    if s.len() == 0 {
        s
    } else if s.last() == k {
        without(s.drop_last(), k)
    } else {
        without(s.drop_last(), k).push(s.last())
    }
}

/// `k` is an entry of `s`, and only one.
pub open spec fn once(s: Seq<int>, k: int) -> bool {
    s.contains(k) && without(s, k).len() == s.len() - 1
}

/// `s` with its one entry `k` moved to position `to`.
pub open spec fn moved(s: Seq<int>, k: int, to: int) -> Seq<int> {
    without(s, k).insert(to, k)
}

/// The nodes that `p` lists as its children are in the arena, have `p` as
/// their parent, and none of them lies above `p`.
pub open spec fn children_sound(nodes: Map<int, TreeNode>, p: int) -> bool {
    &&& forall|i: int|
        0 <= i < nodes[p].children.len() ==> nodes.contains_key(#[trigger] nodes[p].children[i])
            && nodes[nodes[p].children[i]].parent == Some(p)
    &&& forall|i: int, steps: nat|
        0 <= i < nodes[p].children.len() ==> !#[trigger] climbs(
            nodes,
            p,
            nodes[p].children[i],
            steps,
        )
}

/// The parent of `k`, if it has one, is in the arena.
pub open spec fn parent_held(nodes: Map<int, TreeNode>, k: int) -> bool {
    match nodes[k].parent {
        Some(q) => nodes.contains_key(q),
        None => true,
    }
}

/// Following parent links from `from` reaches `to` in at most `steps` steps
/// and at least one.
pub open spec fn climbs(nodes: Map<int, TreeNode>, from: int, to: int, steps: nat) -> bool
    decreases steps,
{
    steps > 0 && nodes.contains_key(from) && match nodes[from].parent {
        Some(q) => q == to || climbs(nodes, q, to, (steps - 1) as nat),
        None => false,
    }
}

/// `nodes` with every entry `k` taken out of the child list of the parent of
/// `k`, if it has one.
pub open spec fn detached(nodes: Map<int, TreeNode>, k: int) -> Map<int, TreeNode> {
    match nodes[k].parent {
        Some(q) => nodes.insert(
            q,
            TreeNode { children: without(nodes[q].children, k), ..nodes[q] },
        ),
        None => nodes,
    }
}

/// The arena without nodes.
pub open spec fn no_nodes() -> Map<int, TreeNode> {
    Map::empty()
}

/// `Tree::new`: a tree without nodes and without a root.
#[verifier::external_body]
pub(crate) fn new_tree() -> (tree: Tree<Data>)
    ensures
        tree_nodes(tree) == no_nodes(),
        tree_root(tree).is_none(),
{
    Tree::new()
}

/// `NodeId`'s `==`: whether two identifiers name the same slot of the same
/// tree.
#[verifier::external_body]
pub(crate) fn same_node(a: &NodeId, b: &NodeId) -> (same: bool)
    ensures
        same == (node_key(*a) == node_key(*b)),
{
    a == b
}

/// `NodeId::clone`: an identifier equal to the given one.
#[verifier::external_body]
pub(crate) fn copy_id(id: &NodeId) -> (copy: NodeId)
    ensures
        node_key(copy) == node_key(*id),
{
    id.clone()
}

/// `Tree::root_node_id`: the identifier of the root, if the tree has one.
#[verifier::external_body]
pub(crate) fn root_of(tree: &Tree<Data>) -> (root: Option<NodeId>)
    ensures
        opt_key(root) == tree_root(*tree),
{
    tree.root_node_id().cloned()
}

/// `Tree::get` and `Node::data`: the data of the node that `id` names, or
/// `None` if the tree holds no node under `id`.
#[verifier::external_body]
pub(crate) fn data_of<'a>(tree: &'a Tree<Data>, id: &NodeId) -> (data: Option<&'a Data>)
    ensures
        data.is_some() == tree_nodes(*tree).contains_key(node_key(*id)),
        data.is_some() ==> data.unwrap()@ == tree_nodes(*tree)[node_key(*id)].data,
{
    match tree.get(id) {
        Ok(node) => Some(node.data()),
        Err(_) => None,
    }
}

/// `Tree::get` and `Node::parent`: the identifier of the node's parent, if it
/// has one.
#[verifier::external_body]
pub(crate) fn parent_of(tree: &Tree<Data>, id: &NodeId) -> (parent: Option<NodeId>)
    requires
        tree_nodes(*tree).contains_key(node_key(*id)),
    ensures
        opt_key(parent) == tree_nodes(*tree)[node_key(*id)].parent,
{
    tree.get(id).unwrap().parent().cloned()
}

/// `Tree::children_ids`: the identifiers of the node's children, in order.
#[verifier::external_body]
pub(crate) fn children_of(tree: &Tree<Data>, id: &NodeId) -> (children: Vec<NodeId>)
    requires
        tree_nodes(*tree).contains_key(node_key(*id)),
    ensures
        keys(children@) == tree_nodes(*tree)[node_key(*id)].children,
{
    tree.children_ids(id).unwrap().cloned().collect()
}

/// `Tree::get_mut` and `Node::replace_data`: the node's data becomes `data`;
/// its links and all other nodes stay as they are.
#[verifier::external_body]
pub(crate) fn set_data(tree: &mut Tree<Data>, id: &NodeId, data: Data)
    requires
        tree_nodes(*old(tree)).contains_key(node_key(*id)),
    ensures
        tree_nodes(*final(tree)) == tree_nodes(*old(tree)).insert(
            node_key(*id),
            TreeNode { data: data@, ..tree_nodes(*old(tree))[node_key(*id)] },
        ),
        tree_root(*final(tree)) == tree_root(*old(tree)),
{
    tree.get_mut(id).unwrap().replace_data(data);
}

/// `Tree::insert` with `InsertBehavior::AsRoot`: a node under an identifier
/// that the tree did not hold becomes the root; the former root, if there
/// was one, becomes its only child.
#[verifier::external_body]
pub(crate) fn insert_root(tree: &mut Tree<Data>, data: Data) -> (id: NodeId)
    ensures
        !tree_nodes(*old(tree)).contains_key(node_key(id)),
        tree_root(*final(tree)) == Some(node_key(id)),
        tree_nodes(*final(tree)) == match tree_root(*old(tree)) {
            Some(r) => tree_nodes(*old(tree)).insert(
                r,
                TreeNode { parent: Some(node_key(id)), ..tree_nodes(*old(tree))[r] },
            ).insert(node_key(id), TreeNode { data: data@, parent: None, children: seq![r] }),
            None => tree_nodes(*old(tree)).insert(
                node_key(id),
                TreeNode { data: data@, parent: None, children: Seq::empty() },
            ),
        },
{
    tree.insert(Node::new(data), InsertBehavior::AsRoot).unwrap()
}

/// `Tree::insert` with `InsertBehavior::UnderNode`: a node under an
/// identifier that the tree did not hold becomes the last child of `parent`.
#[verifier::external_body]
pub(crate) fn insert_under(tree: &mut Tree<Data>, data: Data, parent: &NodeId) -> (id: NodeId)
    requires
        tree_nodes(*old(tree)).contains_key(node_key(*parent)),
    ensures
        !tree_nodes(*old(tree)).contains_key(node_key(id)),
        tree_root(*final(tree)) == tree_root(*old(tree)),
        tree_nodes(*final(tree)) == tree_nodes(*old(tree)).insert(
            node_key(*parent),
            TreeNode {
                children: tree_nodes(*old(tree))[node_key(*parent)].children.push(node_key(id)),
                ..tree_nodes(*old(tree))[node_key(*parent)]
            },
        ).insert(
            node_key(id),
            TreeNode { data: data@, parent: Some(node_key(*parent)), children: Seq::empty() },
        ),
{
    tree.insert(Node::new(data), InsertBehavior::UnderNode(parent)).unwrap()
}

/// `Tree::remove_node` with `RemoveBehavior::DropChildren`, for a node
/// without children: the node leaves the tree and the child list of its
/// parent; if it was the root, the tree has no root afterwards.
#[verifier::external_body]
pub(crate) fn remove_leaf(tree: &mut Tree<Data>, id: &NodeId)
    requires
        tree_nodes(*old(tree)).contains_key(node_key(*id)),
        tree_nodes(*old(tree))[node_key(*id)].children.len() == 0,
        parent_held(tree_nodes(*old(tree)), node_key(*id)),
    ensures
        tree_nodes(*final(tree)) == detached(tree_nodes(*old(tree)), node_key(*id)).remove(
            node_key(*id),
        ),
        tree_root(*final(tree)) == if tree_root(*old(tree)) == Some(node_key(*id)) {
            None
        } else {
            tree_root(*old(tree))
        },
{
    let _ = tree.remove_node(id.clone(), RemoveBehavior::DropChildren);
}

/// `Tree::remove_node` with `RemoveBehavior::OrphanChildren`, for a node
/// that lists nodes of the tree as its children, and not itself: every node
/// that it lists is without a parent afterwards; the node leaves the tree
/// and the child list of its parent; if it was the root, the tree has no
/// root afterwards.
#[verifier::external_body]
pub(crate) fn remove_orphaning(tree: &mut Tree<Data>, id: &NodeId)
    requires
        tree_nodes(*old(tree)).contains_key(node_key(*id)),
        parent_held(tree_nodes(*old(tree)), node_key(*id)),
        !tree_nodes(*old(tree))[node_key(*id)].children.contains(node_key(*id)),
        forall|i: int|
            0 <= i < tree_nodes(*old(tree))[node_key(*id)].children.len()
                ==> tree_nodes(*old(tree)).contains_key(
                #[trigger] tree_nodes(*old(tree))[node_key(*id)].children[i],
            ),
    ensures
        tree_nodes(*final(tree)).dom() == tree_nodes(*old(tree)).dom().remove(node_key(*id)),
        forall|j: int| #[trigger]
            tree_nodes(*final(tree)).contains_key(j) ==> tree_nodes(*final(tree))[j] == (TreeNode {
                data: tree_nodes(*old(tree))[j].data,
                parent: if tree_nodes(*old(tree))[node_key(*id)].children.contains(j) {
                    None
                } else {
                    tree_nodes(*old(tree))[j].parent
                },
                children: if tree_nodes(*old(tree))[node_key(*id)].parent == Some(j) {
                    without(tree_nodes(*old(tree))[j].children, node_key(*id))
                } else {
                    tree_nodes(*old(tree))[j].children
                },
            }),
        tree_root(*final(tree)) == if tree_root(*old(tree)) == Some(node_key(*id)) {
            None
        } else {
            tree_root(*old(tree))
        },
{
    let _ = tree.remove_node(id.clone(), RemoveBehavior::OrphanChildren);
}

/// `Tree::move_node` with `MoveBehavior::ToParent`, for a node that is not
/// the root and not above its new parent: the node leaves the child list of
/// its old parent, if it had one, and becomes the last child of `parent`.
#[verifier::external_body]
pub(crate) fn move_under(tree: &mut Tree<Data>, id: &NodeId, parent: &NodeId)
    requires
        tree_nodes(*old(tree)).contains_key(node_key(*id)),
        tree_nodes(*old(tree)).contains_key(node_key(*parent)),
        node_key(*id) != node_key(*parent),
        tree_root(*old(tree)) != Some(node_key(*id)),
        parent_held(tree_nodes(*old(tree)), node_key(*id)),
        forall|steps: nat|
            !climbs(tree_nodes(*old(tree)), node_key(*parent), node_key(*id), steps),
    ensures
        tree_root(*final(tree)) == tree_root(*old(tree)),
        tree_nodes(*final(tree)) == detached(tree_nodes(*old(tree)), node_key(*id)).insert(
            node_key(*parent),
            TreeNode {
                children: detached(tree_nodes(*old(tree)), node_key(*id))[node_key(
                    *parent,
                )].children.push(node_key(*id)),
                ..tree_nodes(*old(tree))[node_key(*parent)]
            },
        ).insert(
            node_key(*id),
            TreeNode { parent: Some(node_key(*parent)), ..tree_nodes(*old(tree))[node_key(*id)] },
        ),
{
    tree.move_node(id, MoveBehavior::ToParent(parent)).unwrap();
}

/// `Tree::move_node` with `MoveBehavior::ToRoot`, for a node without a parent
/// in a tree without a root: the node becomes the root.
#[verifier::external_body]
pub(crate) fn move_to_root(tree: &mut Tree<Data>, id: &NodeId)
    requires
        tree_nodes(*old(tree)).contains_key(node_key(*id)),
        tree_nodes(*old(tree))[node_key(*id)].parent.is_none(),
        tree_root(*old(tree)).is_none(),
    ensures
        tree_nodes(*final(tree)) == tree_nodes(*old(tree)),
        tree_root(*final(tree)) == Some(node_key(*id)),
{
    tree.move_node(id, MoveBehavior::ToRoot).unwrap();
}

/// `Tree::make_nth_sibling`, for a node that its parent lists once, among
/// children that are all the parent's own: the node moves to position `pos`
/// among its siblings, or to the last position if `pos` is beyond it; the
/// siblings keep their order.
#[verifier::external_body]
pub(crate) fn make_nth_sibling(tree: &mut Tree<Data>, id: &NodeId, pos: usize)
    requires
        tree_nodes(*old(tree)).contains_key(node_key(*id)),
        tree_nodes(*old(tree))[node_key(*id)].parent.is_some(),
        parent_held(tree_nodes(*old(tree)), node_key(*id)),
        once(
            tree_nodes(*old(tree))[tree_nodes(*old(tree))[node_key(*id)].parent.unwrap()].children,
            node_key(*id),
        ),
        children_sound(
            tree_nodes(*old(tree)),
            tree_nodes(*old(tree))[node_key(*id)].parent.unwrap(),
        ),
    ensures
        tree_root(*final(tree)) == tree_root(*old(tree)),
        tree_nodes(*final(tree)) == ({
            let nodes = tree_nodes(*old(tree));
            let p = nodes[node_key(*id)].parent.unwrap();
            let last = nodes[p].children.len() - 1;
            nodes.insert(
                p,
                TreeNode {
                    children: moved(
                        nodes[p].children,
                        node_key(*id),
                        if pos < last {
                            pos as int
                        } else {
                            last
                        },
                    ),
                    ..nodes[p]
                },
            )
        }),
{
    tree.make_nth_sibling(id, pos).unwrap();
}

} // verus!
