//! Sample data structures used for interview practice.

use std::collections::HashMap;
use crate::text::{decimal, i32_to_decimal, join_with};
use vstd::prelude::*;

verus! {

/// The unsorted practice array `5, 8, 4, 6, 2, 9, 1, 3, 7`.
pub fn array_one() -> (r: Vec<i32>)
    ensures
        r@ == seq![5i32, 8, 4, 6, 2, 9, 1, 3, 7],
{
    vec![5, 8, 4, 6, 2, 9, 1, 3, 7]
}

/// The sorted practice array `1, 2, ..., 9`.
pub fn sorted_array_one() -> (r: Vec<i32>)
    ensures
        r@ == seq![1i32, 2, 3, 4, 5, 6, 7, 8, 9],
{
    vec![1, 2, 3, 4, 5, 6, 7, 8, 9]
}

/// A binary tree node holding an `i32`.
#[derive(Debug, PartialEq, Eq)]
pub struct TreeNode {
    pub val: i32,
    pub left: Option<Box<TreeNode>>,
    pub right: Option<Box<TreeNode>>,
}

/// The subtree `Some(node)` with value `v` and children `l` and `r`.
pub open spec fn tree(v: i32, l: Option<Box<TreeNode>>, r: Option<Box<TreeNode>>) -> Option<
    Box<TreeNode>,
> {
    Some(Box::new(TreeNode { val: v, left: l, right: r }))
}

/// The subtree holding the single value `v`.
pub open spec fn leaf(v: i32) -> Option<Box<TreeNode>> {
    tree(v, None, None)
}

/// The values of a tree in in-order (left, node, right).
pub open spec fn inorder(t: Option<Box<TreeNode>>) -> Seq<i32>
    decreases t,
{
    match t {
        None => Seq::empty(),
        Some(n) => inorder(n.left) + seq![n.val] + inorder(n.right),
    }
}

/// Binary-search-tree order: every value in a left subtree is below its
/// node's value, every value in a right subtree above it.
pub open spec fn is_bst(t: Option<Box<TreeNode>>) -> bool
    decreases t,
{
    match t {
        None => true,
        Some(n) => {
            &&& forall|i: int| 0 <= i < inorder(n.left).len() ==> inorder(n.left)[i] < n.val
            &&& forall|i: int| 0 <= i < inorder(n.right).len() ==> n.val < inorder(n.right)[i]
            &&& is_bst(n.left)
            &&& is_bst(n.right)
        },
    }
}

impl Clone for TreeNode {
    /// A deep copy of the subtree rooted here.
    fn clone(&self) -> (r: Self)
        ensures
            r == *self,
        decreases self,
    {
        let left = match &self.left {
            Some(n) => Some(Box::new((**n).clone())),
            None => None,
        };
        let right = match &self.right {
            Some(n) => Some(Box::new((**n).clone())),
            None => None,
        };
        TreeNode { val: self.val, left, right }
    }
}

impl TreeNode {
    /// A node with value `val` and no children.
    pub fn new(val: i32) -> (r: Self)
        ensures
            r.val == val,
            r.left.is_none(),
            r.right.is_none(),
    {
        Self { val, left: None, right: None }
    }
}

/// The practice BST
/// ```text
///         7
///     3       11
/// 1     4  9      13
///  2
/// ```
pub fn bst_one_root() -> (r: Option<Box<TreeNode>>)
    ensures
        r == tree(7, tree(3, tree(1, None, leaf(2)), leaf(4)), tree(11, leaf(9), leaf(13))),
        is_bst(r),
        inorder(r) == seq![1i32, 2, 3, 4, 7, 9, 11, 13],
{
    let mut root = Box::new(TreeNode::new(7));

    let mut left = Box::new(TreeNode::new(3));
    let mut left_left = Box::new(TreeNode::new(1));
    left_left.right = Some(Box::new(TreeNode::new(2)));
    left.left = Some(left_left);
    left.right = Some(Box::new(TreeNode::new(4)));

    let mut right = Box::new(TreeNode::new(11));
    right.left = Some(Box::new(TreeNode::new(9)));
    right.right = Some(Box::new(TreeNode::new(13)));

    root.left = Some(left);
    root.right = Some(right);

    let r = Some(root);
    proof {
        reveal_with_fuel(inorder, 5);
        reveal_with_fuel(is_bst, 5);
        assert(inorder(leaf(2)) =~= seq![2i32]);
        assert(inorder(leaf(4)) =~= seq![4i32]);
        assert(inorder(leaf(9)) =~= seq![9i32]);
        assert(inorder(leaf(13)) =~= seq![13i32]);
        assert(inorder(tree(1, None, leaf(2))) =~= seq![1i32, 2]);
        assert(inorder(tree(3, tree(1, None, leaf(2)), leaf(4))) =~= seq![1i32, 2, 3, 4]);
        assert(inorder(tree(11, leaf(9), leaf(13))) =~= seq![9i32, 11, 13]);
        assert(inorder(r) =~= seq![1i32, 2, 3, 4, 7, 9, 11, 13]);
    }
    r
}

/// A directed or undirected graph as adjacency lists keyed by vertex.
pub type Graph = HashMap<i32, Vec<i32>>;

/// The graph has the edge `u -> v`.
pub open spec fn has_edge(g: Map<i32, Seq<i32>>, u: i32, v: i32) -> bool {
    g.contains_key(u) && g[u].contains(v)
}

/// Every edge leads to a higher vertex, so no path returns to where it
/// started: the graph has no cycle.
pub open spec fn edges_ascend(g: Map<i32, Seq<i32>>) -> bool {
    forall|u: i32, v: i32| #[trigger] has_edge(g, u, v) ==> u < v
}

/// Every edge is listed from both of its ends.
pub open spec fn symmetric(g: Map<i32, Seq<i32>>) -> bool {
    forall|u: i32, v: i32| #[trigger] has_edge(g, u, v) ==> has_edge(g, v, u)
}

/// The adjacency lists of a graph, each taken by its view.
pub open spec fn adjacency(g: Graph) -> Map<i32, Seq<i32>> {
    g@.map_values(|v: Vec<i32>| v@)
}

/// The directed acyclic graph
/// `0 -> 4, 5; 1 -> 2, 5; 2 -> 3; 3 -> 4; 4 -> ; 5 -> `.
pub fn dag_one() -> (g: Graph)
    ensures
        adjacency(g) == map![0i32 => seq![4i32, 5], 1i32 => seq![2i32, 5], 2i32 => seq![3i32], 3i32 => seq![4i32], 4i32 => Seq::<i32>::empty(), 5i32 => Seq::<i32>::empty()],
        edges_ascend(adjacency(g)),
{
    broadcast use vstd::std_specs::hash::group_hash_axioms;

    let mut g: Graph = HashMap::new();
    g.insert(0, vec![4, 5]);
    g.insert(1, vec![2, 5]);
    g.insert(2, vec![3]);
    g.insert(3, vec![4]);
    g.insert(4, Vec::new());
    g.insert(5, Vec::new());
    proof {
        assert(adjacency(g) =~~= map![0i32 => seq![4i32, 5], 1i32 => seq![2i32, 5], 2i32 => seq![3i32], 3i32 => seq![4i32], 4i32 => Seq::<i32>::empty(), 5i32 => Seq::<i32>::empty()]);
    }
    g
}

/// The directed acyclic graph (a path)
/// `0 -> 1; 1 -> 2; 2 -> 3; 3 -> 4; 4 -> 5; 5 -> `.
pub fn dag_two() -> (g: Graph)
    ensures
        adjacency(g) == map![0i32 => seq![1i32], 1i32 => seq![2i32], 2i32 => seq![3i32], 3i32 => seq![4i32], 4i32 => seq![5i32], 5i32 => Seq::<i32>::empty()],
        edges_ascend(adjacency(g)),
{
    broadcast use vstd::std_specs::hash::group_hash_axioms;

    let mut g: Graph = HashMap::new();
    g.insert(0, vec![1]);
    g.insert(1, vec![2]);
    g.insert(2, vec![3]);
    g.insert(3, vec![4]);
    g.insert(4, vec![5]);
    g.insert(5, Vec::new());
    proof {
        assert(adjacency(g) =~~= map![0i32 => seq![1i32], 1i32 => seq![2i32], 2i32 => seq![3i32], 3i32 => seq![4i32], 4i32 => seq![5i32], 5i32 => Seq::<i32>::empty()]);
    }
    g
}

/// The directed graph with the cycle `2 -> 4 -> 5 -> 2`:
/// `0 -> 1; 1 -> 2; 2 -> 3, 4; 3 -> ; 4 -> 5; 5 -> 2`.
pub fn directed_graph_with_cycle() -> (g: Graph)
    ensures
        adjacency(g) == map![0i32 => seq![1i32], 1i32 => seq![2i32], 2i32 => seq![3i32, 4], 3i32 => Seq::<i32>::empty(), 4i32 => seq![5i32], 5i32 => seq![2i32]],
        has_edge(adjacency(g), 2, 4) && has_edge(adjacency(g), 4, 5) && has_edge(adjacency(g), 5, 2),
{
    broadcast use vstd::std_specs::hash::group_hash_axioms;

    let mut g: Graph = HashMap::new();
    g.insert(0, vec![1]);
    g.insert(1, vec![2]);
    g.insert(2, vec![3, 4]);
    g.insert(3, Vec::new());
    g.insert(4, vec![5]);
    g.insert(5, vec![2]);
    proof {
        assert(adjacency(g) =~~= map![0i32 => seq![1i32], 1i32 => seq![2i32], 2i32 => seq![3i32, 4], 3i32 => Seq::<i32>::empty(), 4i32 => seq![5i32], 5i32 => seq![2i32]]);
    }
    g
}

/// The undirected graph (a path), each edge listed from both ends:
/// `0 - 1 - 2 - 3 - 4`.
pub fn undirected_graph_one() -> (g: Graph)
    ensures
        adjacency(g) == map![0i32 => seq![1i32], 1i32 => seq![0i32, 2], 2i32 => seq![1i32, 3], 3i32 => seq![2i32, 4], 4i32 => seq![3i32]],
        symmetric(adjacency(g)),
{
    broadcast use vstd::std_specs::hash::group_hash_axioms;

    let mut g: Graph = HashMap::new();
    g.insert(0, vec![1]);
    g.insert(1, vec![0, 2]);
    g.insert(2, vec![1, 3]);
    g.insert(3, vec![2, 4]);
    g.insert(4, vec![3]);
    proof {
        assert(adjacency(g) =~~= map![0i32 => seq![1i32], 1i32 => seq![0i32, 2], 2i32 => seq![1i32, 3], 3i32 => seq![2i32, 4], 4i32 => seq![3i32]]);
    }
    g
}

/// The undirected graph with the cycle `2 - 4 - 5 - 2`, each edge listed from
/// both ends: `0 - 1 - 2`, `2 - 3`, `2 - 4`, `2 - 5`, `4 - 5`.
pub fn undirected_graph_with_cycle() -> (g: Graph)
    ensures
        adjacency(g) == map![0i32 => seq![1i32], 1i32 => seq![0i32, 2], 2i32 => seq![1i32, 3, 4, 5], 3i32 => seq![2i32], 4i32 => seq![2i32, 5], 5i32 => seq![2i32, 4]],
        symmetric(adjacency(g)),
{
    broadcast use vstd::std_specs::hash::group_hash_axioms;

    let mut g: Graph = HashMap::new();
    g.insert(0, vec![1]);
    g.insert(1, vec![0, 2]);
    g.insert(2, vec![1, 3, 4, 5]);
    g.insert(3, vec![2]);
    g.insert(4, vec![2, 5]);
    g.insert(5, vec![2, 4]);
    proof {
        assert(adjacency(g) =~~= map![0i32 => seq![1i32], 1i32 => seq![0i32, 2], 2i32 => seq![1i32, 3, 4, 5], 3i32 => seq![2i32], 4i32 => seq![2i32, 5], 5i32 => seq![2i32, 4]]);
    }
    g
}

/// A node of a singly linked list of `i32`.
#[derive(Debug, PartialEq, Eq)]
pub struct SingleLLNode {
    pub val: i32,
    pub next: Option<Box<SingleLLNode>>,
}

impl Clone for SingleLLNode {
    /// A deep copy of the list from this node onwards.
    fn clone(&self) -> (r: Self)
        ensures
            r == *self,
        decreases self,
    {
        let next = match &self.next {
            Some(n) => Some(Box::new((**n).clone())),
            None => None,
        };
        SingleLLNode { val: self.val, next }
    }
}

impl SingleLLNode {
    /// A list node with value `val` and no successor.
    pub fn new(val: i32) -> (r: Self)
        ensures
            r.val == val,
            r.next.is_none(),
    {
        Self { val, next: None }
    }
}

/// The values of a singly linked list from its head onwards.
pub open spec fn list_view(head: Option<Box<SingleLLNode>>) -> Seq<i32>
    decreases head,
{
    match head {
        None => Seq::empty(),
        Some(node) => seq![node.val] + list_view(node.next),
    }
}

/// A node of a doubly linked list; it keeps only the forward link, the
/// backward one being left out of this owned representation.
#[derive(Debug, PartialEq, Eq)]
pub struct DoubleLLNode {
    pub val: i32,
    pub next: Option<Box<DoubleLLNode>>,
}

impl Clone for DoubleLLNode {
    /// A deep copy of the list from this node onwards.
    fn clone(&self) -> (r: Self)
        ensures
            r == *self,
        decreases self,
    {
        let next = match &self.next {
            Some(n) => Some(Box::new((**n).clone())),
            None => None,
        };
        DoubleLLNode { val: self.val, next }
    }
}

impl DoubleLLNode {
    /// A list node with value `val` and no successor.
    pub fn new(val: i32) -> (r: Self)
        ensures
            r.val == val,
            r.next.is_none(),
    {
        Self { val, next: None }
    }
}

/// The practice list `4 -> 7 -> 3 -> 9 -> 1 -> 8`.
pub fn sll_one_head() -> (r: Option<Box<SingleLLNode>>)
    ensures
        list_view(r) == seq![4i32, 7, 3, 9, 1, 8],
{
    let values: [i32; 6] = [4, 7, 3, 9, 1, 8];
    let r = linked_list_from_slice(&values);
    proof {
        assert(values@ =~= seq![4i32, 7, 3, 9, 1, 8]);
    }
    r
}

/// Builds a singly linked list holding `values` in order.
pub fn linked_list_from_slice(values: &[i32]) -> (head: Option<Box<SingleLLNode>>)
    ensures
        list_view(head) == values@,
{
    let mut head: Option<Box<SingleLLNode>> = None;
    let mut i: usize = values.len();
    while i > 0
        invariant
            i <= values@.len(),
            list_view(head) == values@.subrange(i as int, values@.len() as int),
        decreases i,
    {
        i = i - 1;
        let mut node = Box::new(SingleLLNode::new(values[i]));
        node.next = head;
        head = Some(node);
        proof {
            assert(list_view(head) =~= values@.subrange(i as int, values@.len() as int));
        }
    }
    proof {
        assert(values@.subrange(0, values@.len() as int) =~= values@);
    }
    head
}

/// The values of a singly linked list, from the head onwards.
pub fn linked_list_to_vec(head: &Option<Box<SingleLLNode>>) -> (values: Vec<i32>)
    ensures
        values@ == list_view(*head),
{
    let mut values: Vec<i32> = Vec::new();
    let mut current: &Option<Box<SingleLLNode>> = head;
    loop
        invariant
            values@ + list_view(*current) == list_view(*head),
        ensures
            values@ == list_view(*head),
        decreases list_view(*current).len(),
    {
        match current {
            Some(node) => {
                values.push(node.val);
                proof {
                    assert(values@ + list_view(node.next) =~= list_view(*head));
                }
                current = &node.next;
            },
            None => {
                proof {
                    assert(values@ =~= list_view(*head));
                }
                break;
            },
        }
    }
    values
}

/// The separator between the values of a printed list.
pub open spec fn arrow() -> Seq<char> {
    seq![' ', '-', '>', ' ']
}

/// A list as printed: its values in decimal, joined by `" -> "`.
pub fn format_linked_list(head: &Option<Box<SingleLLNode>>) -> (r: String)
    ensures
        r@ == join_with(list_view(*head).map_values(|v: i32| decimal(v as int)), arrow()),
{
    let values = linked_list_to_vec(head);
    let ghost parts = values@.map_values(|v: i32| decimal(v as int));
    let sep = " -> ";
    proof {
        reveal_strlit(" -> ");
    }
    let mut r = String::new();
    let mut i: usize = 0;
    assert(parts.take(0) =~= Seq::<Seq<char>>::empty());
    while i < values.len()
        invariant
            parts == values@.map_values(|v: i32| decimal(v as int)),
            sep@ == arrow(),
            i <= values@.len(),
            r@ == join_with(parts.take(i as int), arrow()),
        decreases values@.len() - i,
    {
        let ghost before = r@;
        if i > 0 {
            r.append(sep);
        }
        let text = i32_to_decimal(values[i]);
        r.append(text.as_str());
        proof {
            let next = parts.take(i + 1);
            assert(next.drop_last() =~= parts.take(i as int));
            assert(next.last() == decimal(values@[i as int] as int));
            if i == 0 {
                assert(r@ =~= join_with(next, arrow()));
            } else {
                assert(r@ =~= join_with(next, arrow()));
            }
        }
        i = i + 1;
    }
    assert(parts.take(values@.len() as int) =~= parts);
    r
}

/// A list is determined by its values: two lists that hold the same values
/// are the same list.
pub proof fn lemma_list_view_injective(a: Option<Box<SingleLLNode>>, b: Option<Box<SingleLLNode>>)
    requires
        list_view(a) == list_view(b),
    ensures
        a == b,
    decreases a,
{
    match (a, b) {
        (Some(na), Some(nb)) => {
            assert(list_view(a)[0] == na.val);
            assert(list_view(b)[0] == nb.val);
            assert(list_view(na.next) =~= list_view(a).drop_first());
            assert(list_view(nb.next) =~= list_view(b).drop_first());
            lemma_list_view_injective(na.next, nb.next);
            assert(*na == *nb);
        },
        (None, Some(nb)) => {
            assert(list_view(b).len() > 0);
        },
        (Some(na), None) => {
            assert(list_view(a).len() > 0);
        },
        (None, None) => {},
    }
}

/// Rebuilding a list from its values gives the same list: when `values` are
/// the values of `head` (as `linked_list_to_vec` reads them) and `rebuilt`
/// holds `values` (as `linked_list_from_slice` builds it), `rebuilt` is `head`.
pub proof fn lemma_list_round_trip(head: Option<Box<SingleLLNode>>, values: Seq<i32>, rebuilt: Option<Box<SingleLLNode>>)
    requires
        values == list_view(head),
        list_view(rebuilt) == values,
    ensures
        rebuilt == head,
{
    lemma_list_view_injective(rebuilt, head);
}

} // verus!
