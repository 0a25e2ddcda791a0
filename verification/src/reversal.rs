//! In-place reversal of singly linked lists, iterative and recursive.

use crate::structures::{lemma_list_view_injective, list_view, SingleLLNode};
use vstd::prelude::*;

verus! {

/// Reverses a singly linked list by relinking its nodes, one at a time.
pub fn reverse(head: Option<Box<SingleLLNode>>) -> (r: Option<Box<SingleLLNode>>)
    ensures
        list_view(r) == list_view(head).reverse(),
{
    let mut head = head;
    let mut prev: Option<Box<SingleLLNode>> = None;
    let ghost whole = list_view(head);
    loop
        invariant
            list_view(head).reverse() + list_view(prev) == whole.reverse(),
        ensures
            list_view(prev) == whole.reverse(),
        decreases list_view(head).len(),
    {
        match head {
            Some(mut node) => {
                let ghost x = node.val;
                let ghost rest = list_view(node.next);
                let ghost p = list_view(prev);
                let next = node.next.take();
                node.next = prev;
                prev = Some(node);
                head = next;
                proof {
                    assert(list_view(prev) =~= seq![x] + p);
                    assert((seq![x] + rest).reverse() =~= rest.reverse() + seq![x]);
                    assert(rest.reverse() + (seq![x] + p) =~= (rest.reverse() + seq![x]) + p);
                }
            },
            None => {
                proof {
                    assert(list_view(head).reverse() =~= Seq::<i32>::empty());
                    assert(Seq::<i32>::empty() + list_view(prev) =~= list_view(prev));
                }
                break;
            },
        }
    }
    prev
}

/// Moves the nodes of `current`, one by one, onto the front of `prev`: the
/// result lists `current` reversed, followed by `prev`.
pub fn reverse_onto(current: Option<Box<SingleLLNode>>, prev: Option<Box<SingleLLNode>>) -> (r:
    Option<Box<SingleLLNode>>)
    ensures
        list_view(r) == list_view(current).reverse() + list_view(prev),
    decreases list_view(current).len(),
{
    match current {
        None => {
            proof {
                assert(list_view(current).reverse() + list_view(prev) =~= list_view(prev));
            }
            prev
        },
        Some(mut node) => {
            let ghost x = node.val;
            let ghost rest = list_view(node.next);
            let ghost p = list_view(prev);
            let next = node.next.take();
            node.next = prev;
            let r = reverse_onto(next, Some(node));
            proof {
                assert((seq![x] + rest).reverse() =~= rest.reverse() + seq![x]);
                assert(rest.reverse() + (seq![x] + p) =~= (rest.reverse() + seq![x]) + p);
            }
            r
        },
    }
}

/// Reverses a singly linked list by recursion on its nodes.
pub fn reverse_recursive(head: Option<Box<SingleLLNode>>) -> (r: Option<Box<SingleLLNode>>)
    ensures
        list_view(r) == list_view(head).reverse(),
{
    let r = reverse_onto(head, None);
    proof {
        assert(list_view(head).reverse() + Seq::<i32>::empty() =~= list_view(head).reverse());
    }
    r
}

/// Reversing twice gives back the same list: for any lists `l`, `once` and
/// `twice` where `once` holds `l` reversed and `twice` holds `once` reversed,
/// `twice` is `l`.
pub proof fn lemma_reverse_twice(l: Option<Box<SingleLLNode>>, once: Option<Box<SingleLLNode>>, twice: Option<Box<SingleLLNode>>)
    requires
        list_view(once) == list_view(l).reverse(),
        list_view(twice) == list_view(once).reverse(),
    ensures
        twice == l,
{
    assert(list_view(l).reverse().reverse() =~= list_view(l));
    lemma_list_view_injective(twice, l);
}

/// The iterative and the recursive reversal agree: given the same list, they
/// give the same list.
pub proof fn lemma_reversals_agree(l: Option<Box<SingleLLNode>>, iterative: Option<Box<SingleLLNode>>, recursive: Option<Box<SingleLLNode>>)
    requires
        list_view(iterative) == list_view(l).reverse(),
        list_view(recursive) == list_view(l).reverse(),
    ensures
        iterative == recursive,
{
    lemma_list_view_injective(iterative, recursive);
}

} // verus!
