use learning::reversal::{reverse, reverse_recursive, reverse_onto};
use learning::structures::{
    array_one, bst_one_root, dag_one, dag_two, directed_graph_with_cycle, format_linked_list,
    linked_list_from_slice, linked_list_to_vec, sll_one_head, sorted_array_one,
    undirected_graph_one, undirected_graph_with_cycle, DoubleLLNode, Graph, SingleLLNode,
    TreeNode,
};

fn inorder(t: &Option<Box<TreeNode>>, out: &mut Vec<i32>) {
    if let Some(n) = t {
        inorder(&n.left, out);
        out.push(n.val);
        inorder(&n.right, out);
    }
}

fn sorted_graph(g: &Graph) -> Vec<(i32, Vec<i32>)> {
    let mut v: Vec<(i32, Vec<i32>)> = g.iter().map(|(k, n)| (*k, n.clone())).collect();
    v.sort();
    v
}

#[test]
fn arrays_hold_the_practice_values() {
    assert_eq!(array_one(), vec![5, 8, 4, 6, 2, 9, 1, 3, 7]);
    assert_eq!(sorted_array_one(), vec![1, 2, 3, 4, 5, 6, 7, 8, 9]);
    let mut sorted = array_one();
    sorted.sort();
    assert_eq!(sorted, sorted_array_one());
}

#[test]
fn new_nodes_have_no_links() {
    let t = TreeNode::new(5);
    assert_eq!(t.val, 5);
    assert!(t.left.is_none() && t.right.is_none());
    let s = SingleLLNode::new(-3);
    assert_eq!(s.val, -3);
    assert!(s.next.is_none());
    let d = DoubleLLNode::new(9);
    assert_eq!(d.val, 9);
    assert!(d.next.is_none());
}

#[test]
fn bst_has_the_drawn_shape_and_order() {
    let root = bst_one_root().unwrap();
    assert_eq!(root.val, 7);
    let left = root.left.as_ref().unwrap();
    let right = root.right.as_ref().unwrap();
    assert_eq!(left.val, 3);
    assert_eq!(right.val, 11);
    assert_eq!(left.left.as_ref().unwrap().val, 1);
    assert_eq!(left.left.as_ref().unwrap().right.as_ref().unwrap().val, 2);
    assert_eq!(left.right.as_ref().unwrap().val, 4);
    assert_eq!(right.left.as_ref().unwrap().val, 9);
    assert_eq!(right.right.as_ref().unwrap().val, 13);
    let mut values = Vec::new();
    inorder(&bst_one_root(), &mut values);
    assert_eq!(values, vec![1, 2, 3, 4, 7, 9, 11, 13]);
}

#[test]
fn trees_clone_deeply() {
    let root = bst_one_root();
    let copy = root.clone();
    assert_eq!(root, copy);
}

#[test]
fn directed_graphs_hold_their_edges() {
    assert_eq!(
        sorted_graph(&dag_one()),
        vec![(0, vec![4, 5]), (1, vec![2, 5]), (2, vec![3]), (3, vec![4]), (4, vec![]), (5, vec![])]
    );
    assert_eq!(
        sorted_graph(&dag_two()),
        vec![(0, vec![1]), (1, vec![2]), (2, vec![3]), (3, vec![4]), (4, vec![5]), (5, vec![])]
    );
    assert_eq!(
        sorted_graph(&directed_graph_with_cycle()),
        vec![(0, vec![1]), (1, vec![2]), (2, vec![3, 4]), (3, vec![]), (4, vec![5]), (5, vec![2])]
    );
}

#[test]
fn undirected_graphs_list_each_edge_from_both_ends() {
    for g in [undirected_graph_one(), undirected_graph_with_cycle()] {
        for (u, ns) in g.iter() {
            for v in ns {
                assert!(g[v].contains(u));
            }
        }
    }
    assert_eq!(
        sorted_graph(&undirected_graph_one()),
        vec![(0, vec![1]), (1, vec![0, 2]), (2, vec![1, 3]), (3, vec![2, 4]), (4, vec![3])]
    );
    assert_eq!(
        sorted_graph(&undirected_graph_with_cycle()),
        vec![(0, vec![1]), (1, vec![0, 2]), (2, vec![1, 3, 4, 5]), (3, vec![2]), (4, vec![2, 5]), (5, vec![2, 4])]
    );
}

#[test]
fn linked_lists_round_trip_through_vectors() {
    assert_eq!(linked_list_to_vec(&sll_one_head()), vec![4, 7, 3, 9, 1, 8]);
    assert_eq!(linked_list_to_vec(&linked_list_from_slice(&[])), Vec::<i32>::new());
    assert!(linked_list_from_slice(&[]).is_none());
    let values = [i32::MIN, -1, 0, 1, i32::MAX];
    assert_eq!(linked_list_to_vec(&linked_list_from_slice(&values)), values.to_vec());
}

#[test]
fn linked_lists_print_with_arrows() {
    assert_eq!(format_linked_list(&sll_one_head()), "4 -> 7 -> 3 -> 9 -> 1 -> 8");
    assert_eq!(format_linked_list(&None), "");
    assert_eq!(format_linked_list(&linked_list_from_slice(&[42])), "42");
    assert_eq!(
        format_linked_list(&linked_list_from_slice(&[-7, 0, i32::MIN, i32::MAX])),
        "-7 -> 0 -> -2147483648 -> 2147483647"
    );
}

#[test]
fn reversal_iterative_and_recursive_agree() {
    let list = sll_one_head();
    let a = reverse(list.clone());
    let b = reverse_recursive(list.clone());
    assert_eq!(linked_list_to_vec(&a), vec![8, 1, 9, 3, 7, 4]);
    assert_eq!(linked_list_to_vec(&b), vec![8, 1, 9, 3, 7, 4]);
    assert_eq!(a, b);
    assert_eq!(reverse(a), list);
    assert!(reverse(None).is_none());
    assert!(reverse_recursive(None).is_none());
    assert_eq!(linked_list_to_vec(&reverse(linked_list_from_slice(&[1]))), vec![1]);
}

#[test]
fn reversing_onto_a_list_appends_it() {
    let r = reverse_onto(linked_list_from_slice(&[1, 2, 3]), linked_list_from_slice(&[9, 8]));
    assert_eq!(linked_list_to_vec(&r), vec![3, 2, 1, 9, 8]);
}

#[test]
fn acyclic_graphs_have_ascending_edges() {
    for g in [dag_one(), dag_two()] {
        for (u, ns) in g.iter() {
            for v in ns {
                assert!(u < v);
            }
        }
    }
    let g = directed_graph_with_cycle();
    assert!(g[&2].contains(&4) && g[&4].contains(&5) && g[&5].contains(&2));
}
