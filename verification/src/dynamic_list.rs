//! The heap-node list: an ownership chain of individually allocated nodes.
//! Each node owns the remainder of the chain; the list holds the head.
use vstd::prelude::*;

use crate::elem::ListElem;
use crate::model::{
    delete_at, delete_value, first_match, has_value, insert_at, insert_value, lemma_first_match,
    lemma_value_ops_cons, update_at, update_value,
};

verus! {

/// One heap-allocated node: its element and the rest of the chain.
pub struct Node<T> {
    pub data: T,
    pub next: Option<Box<Node<T>>>,
}

/// A singly-linked list of individually owned heap nodes.
pub struct DynamicLinkedList<T> {
    pub head: Option<Box<Node<T>>>,
}

/// The elements stored in the chain hanging off `node`, in chain order.
pub open spec fn chain_view<T>(node: Option<Box<Node<T>>>) -> Seq<T>
    decreases node,
{
    match node {
        None => Seq::empty(),
        Some(n) => seq![n.data] + chain_view(n.next),
    }
}

impl<T: ListElem> View for DynamicLinkedList<T> {
    type V = Seq<T>;

    open spec fn view(&self) -> Seq<T> {
        chain_view(self.head)
    }
}

impl<T: ListElem> DynamicLinkedList<T> {
    /// Creates an empty list.
    pub fn new() -> (r: Self)
        ensures
            r@ == Seq::<T>::empty(),
    {
        DynamicLinkedList { head: None }
    }

    /// Appends `data` at the end of the list, unless an element with the same
    /// abstract value is already present, in which case nothing changes.
    pub fn insert(&mut self, data: T)
        ensures
            final(self)@ == insert_value(old(self)@, data),
    {
        if Self::chain_find(&self.head, data) {
            return ;
        }
        Self::chain_append(&mut self.head, data);
    }

    /// Returns a copy of the element at position `index`, or nothing when the
    /// list is shorter than `index + 1`.
    pub fn get(&self, index: usize) -> (r: Option<T>)
        ensures
            r == (if index < self@.len() {
                Some(self@[index as int])
            } else {
                None::<T>
            }),
    {
        Self::chain_get(&self.head, index)
    }

    /// Splices `data` in at position `index`; an index past the end of the
    /// list (beyond `len`) leaves the list unchanged.
    pub fn insert_at_index(&mut self, index: usize, data: T)
        ensures
            final(self)@ == insert_at(old(self)@, index as int, data),
    {
        Self::chain_insert_at(&mut self.head, index, data);
    }

    /// Unlinks and releases the first node whose element has the same
    /// abstract value as `data`. Returns whether a match was found; an absent
    /// value leaves the list unchanged.
    pub fn delete_element(&mut self, data: T) -> (r: bool)
        ensures
            r == has_value(old(self)@, data),
            final(self)@ == delete_value(old(self)@, data),
    {
        Self::chain_delete_value(&mut self.head, data)
    }

    /// Unlinks and releases the node at position `index`. Returns whether the
    /// position exists; an out-of-range index leaves the list unchanged.
    pub fn delete_at_index(&mut self, index: usize) -> (r: bool)
        ensures
            r == (index < old(self)@.len()),
            final(self)@ == delete_at(old(self)@, index as int),
    {
        Self::chain_delete_at(&mut self.head, index)
    }

    /// Replaces the first element with the same abstract value as `old_data`
    /// by `new_data`, in place. Returns whether a match was found.
    pub fn update_element(&mut self, old_data: T, new_data: T) -> (r: bool)
        ensures
            r == has_value(old(self)@, old_data),
            final(self)@ == update_value(old(self)@, old_data, new_data),
    {
        Self::chain_update_value(&mut self.head, old_data, new_data)
    }

    /// Replaces the element at position `index` by `data`, in place. Returns
    /// whether the position exists; an out-of-range index changes nothing.
    pub fn update_element_at_index(&mut self, index: usize, data: T) -> (r: bool)
        ensures
            r == (index < old(self)@.len()),
            final(self)@ == update_at(old(self)@, index as int, data),
    {
        Self::chain_update_at(&mut self.head, index, data)
    }

    /// Reports whether some element has the same abstract value as `data`.
    /// The list is not changed, so repeated calls return the same result.
    pub fn find(&self, data: T) -> (r: bool)
        ensures
            r == has_value(self@, data),
    {
        Self::chain_find(&self.head, data)
    }

    fn chain_find(node: &Option<Box<Node<T>>>, data: T) -> (r: bool)
        ensures
            r == has_value(chain_view(*node), data),
        decreases *node,
    {
        match node {
            None => false,
            Some(n) => {
                proof {
                    lemma_value_ops_cons(n.data, chain_view(n.next), data);
                }
                if n.data.eq_elem(&data) {
                    true
                } else {
                    Self::chain_find(&n.next, data)
                }
            },
        }
    }

    fn chain_get(node: &Option<Box<Node<T>>>, index: usize) -> (r: Option<T>)
        ensures
            r == (if index < chain_view(*node).len() {
                Some(chain_view(*node)[index as int])
            } else {
                None::<T>
            }),
        decreases *node,
    {
        match node {
            None => None,
            Some(n) => {
                if index == 0 {
                    Some(n.data)
                } else {
                    let r = Self::chain_get(&n.next, index - 1);
                    proof {
                        let c = chain_view(*node);
                        let rest = chain_view(n.next);
                        if index < c.len() {
                            assert(c[index as int] == rest[index - 1]);
                        }
                    }
                    r
                }
            },
        }
    }

    fn chain_append(node: &mut Option<Box<Node<T>>>, data: T)
        ensures
            chain_view(*final(node)) == chain_view(*old(node)).push(data),
        decreases *old(node),
    {
        match node.take() {
            None => {
                *node = Some(Box::new(Node { data, next: None }));
                proof {
                    assert(chain_view(*node) =~= chain_view(*old(node)).push(data));
                }
            },
            Some(mut boxed) => {
                Self::chain_append(&mut boxed.next, data);
                *node = Some(boxed);
                proof {
                    assert(chain_view(*node) =~= chain_view(*old(node)).push(data));
                }
            },
        }
    }

    fn chain_insert_at(node: &mut Option<Box<Node<T>>>, index: usize, data: T)
        ensures
            chain_view(*final(node)) == insert_at(chain_view(*old(node)), index as int, data),
        decreases *old(node),
    {
        if index == 0 {
            let rest = node.take();
            *node = Some(Box::new(Node { data, next: rest }));
            proof {
                assert(chain_view(*node) =~= chain_view(*old(node)).insert(0, data));
            }
        } else {
            match node.take() {
                None => {},
                Some(mut boxed) => {
                    Self::chain_insert_at(&mut boxed.next, index - 1, data);
                    *node = Some(boxed);
                    proof {
                        let c = chain_view(*old(node));
                        if index <= c.len() {
                            assert(chain_view(*node) =~= c.insert(index as int, data));
                        }
                    }
                },
            }
        }
    }

    fn chain_delete_value(node: &mut Option<Box<Node<T>>>, data: T) -> (r: bool)
        ensures
            r == has_value(chain_view(*old(node)), data),
            chain_view(*final(node)) == delete_value(chain_view(*old(node)), data),
        decreases *old(node),
    {
        match node.take() {
            None => false,
            Some(mut boxed) => {
                proof {
                    lemma_value_ops_cons(boxed.data, chain_view(boxed.next), data);
                }
                if boxed.data.eq_elem(&data) {
                    *node = boxed.next;
                    proof {
                        assert(chain_view(*node) =~= chain_view(*old(node)).remove(0));
                    }
                    true
                } else {
                    proof {
                        lemma_first_match(chain_view(boxed.next), data);
                    }
                    let r = Self::chain_delete_value(&mut boxed.next, data);
                    *node = Some(boxed);
                    proof {
                        let c = chain_view(*old(node));
                        lemma_first_match(c, data);
                        if has_value(c, data) {
                            assert(chain_view(*node) =~= c.remove(first_match(c, data)));
                        }
                    }
                    r
                }
            },
        }
    }

    fn chain_delete_at(node: &mut Option<Box<Node<T>>>, index: usize) -> (r: bool)
        ensures
            r == (index < chain_view(*old(node)).len()),
            chain_view(*final(node)) == delete_at(chain_view(*old(node)), index as int),
        decreases *old(node),
    {
        match node.take() {
            None => false,
            Some(mut boxed) => {
                if index == 0 {
                    *node = boxed.next;
                    proof {
                        assert(chain_view(*node) =~= chain_view(*old(node)).remove(0));
                    }
                    true
                } else {
                    let r = Self::chain_delete_at(&mut boxed.next, index - 1);
                    *node = Some(boxed);
                    proof {
                        let c = chain_view(*old(node));
                        if index < c.len() {
                            assert(chain_view(*node) =~= c.remove(index as int));
                        }
                    }
                    r
                }
            },
        }
    }

    fn chain_update_value(node: &mut Option<Box<Node<T>>>, from: T, to: T) -> (r: bool)
        ensures
            r == has_value(chain_view(*old(node)), from),
            chain_view(*final(node)) == update_value(chain_view(*old(node)), from, to),
        decreases *old(node),
    {
        match node.take() {
            None => false,
            Some(mut boxed) => {
                proof {
                    lemma_value_ops_cons(boxed.data, chain_view(boxed.next), from);
                }
                if boxed.data.eq_elem(&from) {
                    boxed.data = to;
                    *node = Some(boxed);
                    proof {
                        assert(chain_view(*node) =~= chain_view(*old(node)).update(0, to));
                    }
                    true
                } else {
                    proof {
                        lemma_first_match(chain_view(boxed.next), from);
                    }
                    let r = Self::chain_update_value(&mut boxed.next, from, to);
                    *node = Some(boxed);
                    proof {
                        let c = chain_view(*old(node));
                        lemma_first_match(c, from);
                        if has_value(c, from) {
                            assert(chain_view(*node) =~= c.update(first_match(c, from), to));
                        }
                    }
                    r
                }
            },
        }
    }

    fn chain_update_at(node: &mut Option<Box<Node<T>>>, index: usize, data: T) -> (r: bool)
        ensures
            r == (index < chain_view(*old(node)).len()),
            chain_view(*final(node)) == update_at(chain_view(*old(node)), index as int, data),
        decreases *old(node),
    {
        match node.take() {
            None => false,
            Some(mut boxed) => {
                if index == 0 {
                    boxed.data = data;
                    *node = Some(boxed);
                    proof {
                        assert(chain_view(*node) =~= chain_view(*old(node)).update(0, data));
                    }
                    true
                } else {
                    let r = Self::chain_update_at(&mut boxed.next, index - 1, data);
                    *node = Some(boxed);
                    proof {
                        let c = chain_view(*old(node));
                        if index < c.len() {
                            assert(chain_view(*node) =~= c.update(index as int, data));
                        }
                    }
                    r
                }
            },
        }
    }
}

} // verus!
