//! The array-backed list: a fixed arena of `N` slots in which both the live
//! chain and the free chain are threaded by slot indices. No allocation
//! happens after construction; deleted slots return to the front of the free
//! chain and are reused.
use vstd::prelude::*;

use crate::elem::ListElem;
use crate::model::{
    delete_at, delete_value, first_match, has_value, insert_at_bounded, insert_bounded,
    lemma_first_match, same_value, update_at, update_value,
};

verus! {

/// One slot of the arena: an optional element and the index of the slot's
/// successor in whichever chain the slot currently belongs to.
#[derive(Clone, Copy)]
pub struct StaticNode<T> {
    data: Option<T>,
    next: Option<usize>,
}

/// A fixed-capacity linked list over an arena of `N` slots.
///
/// Exactly one of the two chains owns each slot: the live chain (from `head`)
/// holds the visible contents, the free chain (from `free`) holds the slots
/// available to future inserts. The two ghost sequences record the slot
/// indices of the chains in order.
pub struct StaticLinkedList<T, const N: usize> {
    nodes: Vec<StaticNode<T>>,
    head: Option<usize>,
    free: Option<usize>,
    live: Ghost<Seq<int>>,
    avail: Ghost<Seq<int>>,
}

impl<T: ListElem, const N: usize> StaticLinkedList<T, N> {
    /// The indices of `chain` form a linked chain through the slots: each
    /// slot's `next` names the following index, the last slot's `next` is
    /// empty, and `first` names the chain's start.
    spec fn chain_linked(&self, chain: Seq<int>, first: Option<usize>) -> bool {
        &&& forall|k: int| 0 <= k < chain.len() ==> 0 <= #[trigger] chain[k] < self.nodes@.len()
        &&& forall|k: int|
            0 <= k < chain.len() ==> #[trigger] self.nodes@[chain[k]].next == (if k + 1
                < chain.len() {
                Some(chain[k + 1] as usize)
            } else {
                None::<usize>
            })
        &&& first == (if chain.len() > 0 {
            Some(chain[0] as usize)
        } else {
            None::<usize>
        })
    }

    /// The internal invariant: the arena has exactly `N` slots, the live and
    /// free chains are disjoint duplicate-free index chains that together own
    /// every slot, live slots hold data, and free slots hold none.
    pub closed spec fn wf(&self) -> bool {
        &&& self.nodes@.len() == N
        &&& self.chain_linked(self.live@, self.head)
        &&& self.chain_linked(self.avail@, self.free)
        &&& self.live@.no_duplicates()
        &&& self.avail@.no_duplicates()
        &&& forall|k: int|
            0 <= k < self.live@.len() ==> !self.avail@.contains(#[trigger] self.live@[k])
        &&& self.live@.len() + self.avail@.len() == N
        &&& forall|k: int| 0 <= k < self.live@.len() ==> self.nodes@[#[trigger] self.live@[k]].data is Some
        &&& forall|k: int| 0 <= k < self.avail@.len() ==> self.nodes@[#[trigger] self.avail@[k]].data is None
    }

    /// The visible contents: the elements of the live chain, in chain order.
    pub closed spec fn view(&self) -> Seq<T> {
        Seq::new(self.live@.len(), |k: int| self.nodes@[self.live@[k]].data->0)
    }

    /// The contents never outgrow the capacity.
    pub proof fn lemma_len_bounded(&self)
        requires
            self.wf(),
        ensures
            self@.len() <= N,
    {
    }

    /// Creates a list of `N` empty slots, all linked into the free chain in
    /// index order, so allocation is lowest-index-first until slots are freed
    /// out of order. A capacity of zero is valid: the list is immediately
    /// full.
    pub fn new() -> (r: Self)
        ensures
            r.wf(),
            r@ == Seq::<T>::empty(),
    {
        let mut nodes: Vec<StaticNode<T>> = Vec::new();
        let mut i: usize = 0;
        while i < N
            invariant
                i <= N,
                nodes@.len() == i,
                forall|j: int|
                    0 <= j < i ==> #[trigger] nodes@[j].next == (if j + 1 < N {
                        Some((j + 1) as usize)
                    } else {
                        None::<usize>
                    }),
                forall|j: int| 0 <= j < i ==> #[trigger] nodes@[j].data is None,
            decreases N - i,
        {
            let next = if i + 1 < N {
                Some(i + 1)
            } else {
                None
            };
            nodes.push(StaticNode { data: None, next });
            i = i + 1;
        }
        let free = if N > 0 {
            Some(0)
        } else {
            None
        };
        let r = StaticLinkedList {
            nodes,
            head: None,
            free,
            live: Ghost(Seq::empty()),
            avail: Ghost(Seq::new(N as nat, |k: int| k)),
        };
        proof {
            assert(r@ =~= Seq::<T>::empty());
        }
        r
    }

    /// Returns a copy of the element at position `index` of the live chain,
    /// or nothing when the list is shorter than `index + 1`.
    pub fn get(&self, index: usize) -> (r: Option<T>)
        requires
            self.wf(),
        ensures
            r == (if index < self@.len() {
                Some(self@[index as int])
            } else {
                None::<T>
            }),
    {
        let mut current: usize = match self.head {
            Some(h) => h,
            None => {
                return None;
            },
        };
        let mut steps: usize = 0;
        while steps < index
            invariant
                steps <= index,
                steps < self.live@.len(),
                current == self.live@[steps as int],
            decreases index - steps,
        {
            match self.nodes[current].next {
                Some(next) => {
                    current = next;
                    steps = steps + 1;
                },
                None => {
                    return None;
                },
            }
        }
        self.nodes[current].data
    }

    /// Reports whether some element of the live chain has the same abstract
    /// value as `data`. The list is not changed, so repeated calls return the
    /// same result.
    pub fn find(&self, data: T) -> (r: bool)
        requires
            self.wf(),
        ensures
            r == has_value(self@, data),
    {
        let mut cur_opt: Option<usize> = self.head;
        let ghost mut steps: int = 0;
        while cur_opt.is_some()
            invariant
                0 <= steps <= self.live@.len(),
                cur_opt == (if steps < self.live@.len() {
                    Some(self.live@[steps] as usize)
                } else {
                    None::<usize>
                }),
                forall|j: int| 0 <= j < steps ==> !same_value(self@[j], data),
            decreases self.live@.len() - steps,
        {
            let i = cur_opt.unwrap();
            let stored = match self.nodes[i].data {
                Some(d) => d,
                None => unreached(),
            };
            if stored.eq_elem(&data) {
                proof {
                    assert(same_value(self@[steps], data));
                }
                return true;
            }
            cur_opt = self.nodes[i].next;
            proof {
                steps = steps + 1;
            }
        }
        false
    }
    /// Appends `data` at the end of the live chain, unless an element with
    /// the same abstract value is already present or the list is full, in
    /// which case nothing changes.
    pub fn insert(&mut self, data: T)
        requires
            old(self).wf(),
        ensures
            final(self).wf(),
            final(self)@ == insert_bounded(old(self)@, data, N as nat),
    {
        if self.find(data) {
            return ;
        }
        if self.free.is_none() {
            proof {
                assert(self.avail@.len() == 0);
                assert(self@.len() == N);
            }
            return ;
        }
        let prev: Option<usize> = match self.head {
            None => None,
            Some(h) => {
                let mut cur = h;
                let ghost mut kk: int = 0;
                while self.nodes[cur].next.is_some()
                    invariant
                        0 <= kk < self.live@.len(),
                        cur == self.live@[kk] as usize,
                    decreases self.live@.len() - kk,
                {
                    cur = self.nodes[cur].next.unwrap();
                    proof {
                        kk = kk + 1;
                    }
                }
                proof {
                    assert(kk == self.live@.len() - 1);
                }
                Some(cur)
            },
        };
        let ghost end = self.live@.len() as int;
        let fi = self.acquire_slot(data);
        self.link_at(fi, prev, Ghost(end));
        proof {
            assert(self@ =~= old(self)@.push(data));
        }
    }

    /// Splices `data` in at position `index` of the live chain. A full list
    /// or an index past the end of the list (beyond `len`) leaves the list
    /// unchanged.
    pub fn insert_at_index(&mut self, index: usize, data: T)
        requires
            old(self).wf(),
        ensures
            final(self).wf(),
            final(self)@ == insert_at_bounded(old(self)@, index as int, data, N as nat),
    {
        if self.free.is_none() {
            proof {
                assert(self.avail@.len() == 0);
                assert(self@.len() == N);
            }
            return ;
        }
        if index == 0 {
            let fi = self.acquire_slot(data);
            self.link_at(fi, None, Ghost(0));
            return ;
        }
        let mut cur = match self.head {
            Some(h) => h,
            None => {
                return ;
            },
        };
        let mut steps: usize = 0;
        while steps < index - 1
            invariant
                steps <= index - 1,
                steps < self.live@.len(),
                cur == self.live@[steps as int] as usize,
            decreases index - steps,
        {
            match self.nodes[cur].next {
                Some(n) => {
                    cur = n;
                    steps = steps + 1;
                },
                None => {
                    proof {
                        assert(steps == self.live@.len() - 1);
                    }
                    return ;
                },
            }
        }
        let fi = self.acquire_slot(data);
        self.link_at(fi, Some(cur), Ghost(index as int));
    }

    /// Unlinks and frees the first live slot whose element has the same
    /// abstract value as `data`. Returns whether a match was found; an absent
    /// value leaves the list unchanged.
    pub fn delete_element(&mut self, data: T) -> (r: bool)
        requires
            old(self).wf(),
        ensures
            final(self).wf(),
            r == has_value(old(self)@, data),
            final(self)@ == delete_value(old(self)@, data),
    {
        let mut cur_opt: Option<usize> = self.head;
        let mut prev: Option<usize> = None;
        let ghost mut k: int = 0;
        while cur_opt.is_some()
            invariant
                *self == *old(self),
                0 <= k <= self.live@.len(),
                cur_opt == (if k < self.live@.len() {
                    Some(self.live@[k] as usize)
                } else {
                    None::<usize>
                }),
                prev == (if k == 0 {
                    None::<usize>
                } else {
                    Some(self.live@[k - 1] as usize)
                }),
                forall|j: int| 0 <= j < k ==> !same_value(self@[j], data),
            decreases self.live@.len() - k,
        {
            let i = cur_opt.unwrap();
            let stored = match self.nodes[i].data {
                Some(d) => d,
                None => unreached(),
            };
            if stored.eq_elem(&data) {
                proof {
                    assert(same_value(self@[k], data));
                    lemma_first_match(self@, data);
                    assert(first_match(self@, data) == k);
                }
                self.remove_at(prev, i, Ghost(k));
                return true;
            }
            prev = cur_opt;
            cur_opt = self.nodes[i].next;
            proof {
                k = k + 1;
            }
        }
        false
    }

    /// Unlinks and frees the live slot at position `index`. Returns whether
    /// the position exists; an out-of-range index leaves the list unchanged.
    pub fn delete_at_index(&mut self, index: usize) -> (r: bool)
        requires
            old(self).wf(),
        ensures
            final(self).wf(),
            r == (index < old(self)@.len()),
            final(self)@ == delete_at(old(self)@, index as int),
    {
        let mut cur_opt: Option<usize> = self.head;
        let mut prev: Option<usize> = None;
        let mut steps: usize = 0;
        while steps < index
            invariant
                steps <= index,
                steps <= self.live@.len(),
                cur_opt == (if steps < self.live@.len() {
                    Some(self.live@[steps as int] as usize)
                } else {
                    None::<usize>
                }),
                prev == (if steps == 0 || steps > self.live@.len() {
                    None::<usize>
                } else {
                    Some(self.live@[steps as int - 1] as usize)
                }),
            decreases index - steps,
        {
            match cur_opt {
                Some(i) => {
                    prev = cur_opt;
                    cur_opt = self.nodes[i].next;
                    steps = steps + 1;
                },
                None => {
                    return false;
                },
            }
        }
        match cur_opt {
            Some(i) => {
                self.remove_at(prev, i, Ghost(index as int));
                true
            },
            None => false,
        }
    }

    /// Replaces the first element with the same abstract value as `old_data`
    /// by `new_data`, in place. Returns whether a match was found.
    pub fn update_element(&mut self, old_data: T, new_data: T) -> (r: bool)
        requires
            old(self).wf(),
        ensures
            final(self).wf(),
            r == has_value(old(self)@, old_data),
            final(self)@ == update_value(old(self)@, old_data, new_data),
    {
        let mut cur_opt: Option<usize> = self.head;
        let ghost mut k: int = 0;
        while cur_opt.is_some()
            invariant
                *self == *old(self),
                0 <= k <= self.live@.len(),
                cur_opt == (if k < self.live@.len() {
                    Some(self.live@[k] as usize)
                } else {
                    None::<usize>
                }),
                forall|j: int| 0 <= j < k ==> !same_value(self@[j], old_data),
            decreases self.live@.len() - k,
        {
            let i = cur_opt.unwrap();
            let stored = match self.nodes[i].data {
                Some(d) => d,
                None => unreached(),
            };
            if stored.eq_elem(&old_data) {
                proof {
                    assert(same_value(self@[k], old_data));
                    lemma_first_match(self@, old_data);
                    assert(first_match(self@, old_data) == k);
                }
                self.set_data_at(i, new_data, Ghost(k));
                return true;
            }
            cur_opt = self.nodes[i].next;
            proof {
                k = k + 1;
            }
        }
        false
    }

    /// Replaces the element at position `index` of the live chain by `data`,
    /// in place. Returns whether the position exists; an out-of-range index
    /// changes nothing.
    pub fn update_element_at_index(&mut self, index: usize, data: T) -> (r: bool)
        requires
            old(self).wf(),
        ensures
            final(self).wf(),
            r == (index < old(self)@.len()),
            final(self)@ == update_at(old(self)@, index as int, data),
    {
        let mut cur_opt: Option<usize> = self.head;
        let mut steps: usize = 0;
        while steps < index
            invariant
                steps <= index,
                steps <= self.live@.len(),
                cur_opt == (if steps < self.live@.len() {
                    Some(self.live@[steps as int] as usize)
                } else {
                    None::<usize>
                }),
            decreases index - steps,
        {
            match cur_opt {
                Some(i) => {
                    cur_opt = self.nodes[i].next;
                    steps = steps + 1;
                },
                None => {
                    return false;
                },
            }
        }
        match cur_opt {
            Some(i) => {
                self.set_data_at(i, data, Ghost(index as int));
                true
            },
            None => false,
        }
    }

    /// The invariant of the intermediate state in which slot `fi` has been
    /// detached from the free chain, filled with data, and not yet linked into
    /// the live chain: both chains are intact and `fi` belongs to neither.
    spec fn wf_detached(&self, fi: int) -> bool {
        &&& self.nodes@.len() == N
        &&& self.chain_linked(self.live@, self.head)
        &&& self.chain_linked(self.avail@, self.free)
        &&& self.live@.no_duplicates()
        &&& self.avail@.no_duplicates()
        &&& forall|k: int|
            0 <= k < self.live@.len() ==> !self.avail@.contains(#[trigger] self.live@[k])
        &&& 0 <= fi < N
        &&& !self.live@.contains(fi)
        &&& !self.avail@.contains(fi)
        &&& self.live@.len() + self.avail@.len() + 1 == N
        &&& forall|k: int| 0 <= k < self.live@.len() ==> self.nodes@[#[trigger] self.live@[k]].data is Some
        &&& forall|k: int| 0 <= k < self.avail@.len() ==> self.nodes@[#[trigger] self.avail@[k]].data is None
        &&& self.nodes@[fi].data is Some
        &&& self.nodes@[fi].next is None
    }

    /// Pops the head of the free chain, stores `data` in it, and leaves the
    /// slot detached: in neither chain, ready to be linked into the live one.
    fn acquire_slot(&mut self, data: T) -> (fi: usize)
        requires
            old(self).wf(),
            old(self).avail@.len() > 0,
        ensures
            final(self).wf_detached(fi as int),
            final(self).nodes@[fi as int].data == Some(data),
            final(self).live == old(self).live,
            final(self).head == old(self).head,
            final(self)@ == old(self)@,
    {
        let fi = match self.free {
            Some(i) => i,
            None => unreached(),
        };
        let next_free = self.nodes[fi].next;
        self.free = next_free;
        self.nodes[fi] = StaticNode { data: Some(data), next: None };
        proof {
            assert(old(self).avail@[0] == fi as int);
            assert(old(self).avail@.contains(fi as int));
        }
        self.avail = Ghost(self.avail@.subrange(1, self.avail@.len() as int));
        proof {
            let o = *old(self);
            let s = *self;
            assert(!o.live@.contains(fi as int));
            assert forall|k: int| 0 <= k < s.live@.len() implies s.live@[k] != fi as int by {
                assert(o.live@[k] == s.live@[k]);
            }
            assert forall|k: int|
                0 <= k < s.avail@.len() implies #[trigger] s.avail@[k] == o.avail@[k + 1] by {}
            assert(s.chain_linked(s.live@, s.head));
            assert(s.chain_linked(s.avail@, s.free));
            assert(s.avail@.no_duplicates());
            assert forall|x: int| s.avail@.contains(x) implies o.avail@.contains(x) by {
                let j = choose|j: int| 0 <= j < s.avail@.len() && s.avail@[j] == x;
                assert(o.avail@[j + 1] == x);
            }
            assert(!s.avail@.contains(fi as int)) by {
                if s.avail@.contains(fi as int) {
                    let j = choose|j: int| 0 <= j < s.avail@.len() && s.avail@[j] == fi as int;
                    assert(o.avail@[j + 1] == o.avail@[0]);
                }
            }
            assert(s@ =~= o@);
        }
        fi
    }

    /// Links the detached slot `fi` into the live chain at position `k`,
    /// right after `prev` (or as the new head when `prev` is empty).
    fn link_at(&mut self, fi: usize, prev: Option<usize>, Ghost(k): Ghost<int>)
        requires
            old(self).wf_detached(fi as int),
            0 <= k <= old(self).live@.len(),
            prev == (if k == 0 {
                None::<usize>
            } else {
                Some(old(self).live@[k - 1] as usize)
            }),
        ensures
            final(self).wf(),
            final(self)@ == old(self)@.insert(k, old(self).nodes@[fi as int].data->0),
    {
        match prev {
            None => {
                let old_head = self.head;
                let mut slot = self.nodes[fi];
                slot.next = old_head;
                self.nodes[fi] = slot;
                self.head = Some(fi);
            },
            Some(p) => {
                let succ = self.nodes[p].next;
                let mut slot = self.nodes[fi];
                slot.next = succ;
                self.nodes[fi] = slot;
                let mut prev_slot = self.nodes[p];
                prev_slot.next = Some(fi);
                self.nodes[p] = prev_slot;
            },
        }
        self.live = Ghost(self.live@.insert(k, fi as int));
        proof {
            let o = *old(self);
            let s = *self;
            if k > 0 {
                assert(o.live@.contains(o.live@[k - 1]));
            }
            assert forall|j: int| 0 <= j < o.live@.len() && j != k - 1 implies s.nodes@[#[trigger] o
                .live@[j]] == o.nodes@[o.live@[j]] by {
                assert(o.live@[j] != fi as int);
                if k > 0 {
                    assert(o.live@.no_duplicates());
                }
            }
            assert forall|j: int| 0 <= j < o.avail@.len() implies s.nodes@[#[trigger] o.avail@[j]]
                == o.nodes@[o.avail@[j]] by {
                assert(o.avail@[j] != fi as int);
                if k > 0 {
                    assert(!o.avail@.contains(o.live@[k - 1]));
                }
            }
            assert(s.chain_linked(s.avail@, s.free));
            assert forall|j: int| 0 <= j < s.live@.len() implies 0 <= #[trigger] s.live@[j] < N by {
                if j < k {
                    assert(s.live@[j] == o.live@[j]);
                } else if j == k {
                } else {
                    assert(s.live@[j] == o.live@[j - 1]);
                }
            }
            assert forall|j: int| 0 <= j < s.live@.len() implies #[trigger] s.nodes@[s.live@[j]].next
                == (if j + 1 < s.live@.len() {
                Some(s.live@[j + 1] as usize)
            } else {
                None::<usize>
            }) by {
                if j < k - 1 {
                    assert(s.live@[j] == o.live@[j]);
                    assert(s.nodes@[o.live@[j]] == o.nodes@[o.live@[j]]);
                    assert(s.live@[j + 1] == o.live@[j + 1]);
                } else if j == k - 1 {
                    assert(s.live@[j] == o.live@[j]);
                    assert(s.live@[j + 1] == fi as int);
                } else if j == k {
                    assert(s.live@[j] == fi as int);
                    if j + 1 < s.live@.len() {
                        assert(s.live@[j + 1] == o.live@[j]);
                    }
                } else {
                    assert(s.live@[j] == o.live@[j - 1]);
                    assert(s.nodes@[o.live@[j - 1]] == o.nodes@[o.live@[j - 1]]);
                    if j + 1 < s.live@.len() {
                        assert(s.live@[j + 1] == o.live@[j]);
                    }
                }
            }
            assert(s.chain_linked(s.live@, s.head));
            assert(s.live@.no_duplicates()) by {
                assert forall|i: int, j: int|
                    0 <= i < j < s.live@.len() implies s.live@[i] != s.live@[j] by {
                    if i == k {
                        assert(o.live@.contains(o.live@[j - 1]));
                    } else if j == k {
                        assert(o.live@.contains(o.live@[i]));
                    }
                }
            }
            assert forall|j: int|
                0 <= j < s.live@.len() implies !s.avail@.contains(#[trigger] s.live@[j]) by {
                if j < k {
                    assert(s.live@[j] == o.live@[j]);
                } else if j == k {
                } else {
                    assert(s.live@[j] == o.live@[j - 1]);
                }
            }
            assert forall|j: int|
                0 <= j < s.live@.len() implies s.nodes@[#[trigger] s.live@[j]].data is Some by {
                if j < k {
                    assert(s.live@[j] == o.live@[j]);
                } else if j == k {
                } else {
                    assert(s.live@[j] == o.live@[j - 1]);
                }
            }
            assert forall|j: int|
                0 <= j < s.avail@.len() implies s.nodes@[#[trigger] s.avail@[j]].data is None by {}
            assert(s.wf());
            assert(s@ =~= o@.insert(k, o.nodes@[fi as int].data->0)) by {
                assert forall|j: int| 0 <= j < s@.len() implies s@[j] == o@.insert(
                    k,
                    o.nodes@[fi as int].data->0,
                )[j] by {
                    if j < k {
                        assert(s.live@[j] == o.live@[j]);
                        assert(o.live@.contains(o.live@[j]));
                        assert(s.nodes@[o.live@[j]].data == o.nodes@[o.live@[j]].data);
                    } else if j == k {
                    } else {
                        assert(s.live@[j] == o.live@[j - 1]);
                        assert(o.live@.contains(o.live@[j - 1]));
                        assert(s.nodes@[o.live@[j - 1]].data == o.nodes@[o.live@[j - 1]].data);
                    }
                }
            }
        }
    }

    /// Unlinks the live slot at position `k` (whose index is `cur`, with
    /// `prev` the index of its predecessor), clears it, and pushes it onto the
    /// front of the free chain, so it is the next slot to be reused.
    fn remove_at(&mut self, prev: Option<usize>, cur: usize, Ghost(k): Ghost<int>)
        requires
            old(self).wf(),
            0 <= k < old(self).live@.len(),
            cur == old(self).live@[k] as usize,
            prev == (if k == 0 {
                None::<usize>
            } else {
                Some(old(self).live@[k - 1] as usize)
            }),
        ensures
            final(self).wf(),
            final(self)@ == old(self)@.remove(k),
    {
        proof {
            assert(old(self).live@.contains(cur as int));
            if k > 0 {
                assert(old(self).live@.contains(old(self).live@[k - 1]));
            }
        }
        let next = self.nodes[cur].next;
        match prev {
            None => {
                self.head = next;
            },
            Some(p) => {
                let mut prev_slot = self.nodes[p];
                prev_slot.next = next;
                self.nodes[p] = prev_slot;
            },
        }
        let old_free = self.free;
        self.nodes[cur] = StaticNode { data: None, next: old_free };
        self.free = Some(cur);
        self.live = Ghost(self.live@.remove(k));
        self.avail = Ghost(seq![cur as int] + self.avail@);
        proof {
            let o = *old(self);
            let s = *self;
            assert forall|j: int| 0 <= j < o.live@.len() && j != k && j != k - 1 implies s.nodes@[
                #[trigger] o.live@[j]] == o.nodes@[o.live@[j]] by {
                assert(o.live@.no_duplicates());
            }
            if k > 0 {
                assert(s.nodes@[o.live@[k - 1]].data == o.nodes@[o.live@[k - 1]].data);
            }
            assert forall|j: int| 0 <= j < o.avail@.len() implies s.nodes@[#[trigger] o.avail@[j]]
                == o.nodes@[o.avail@[j]] by {
                assert(!o.avail@.contains(cur as int));
                if k > 0 {
                    assert(!o.avail@.contains(o.live@[k - 1]));
                }
            }
            assert forall|j: int| 0 <= j < s.live@.len() implies #[trigger] s.live@[j] == (if j < k {
                o.live@[j]
            } else {
                o.live@[j + 1]
            }) by {}
            assert forall|j: int| 0 <= j < s.avail@.len() implies #[trigger] s.avail@[j] == (if j
                == 0 {
                cur as int
            } else {
                o.avail@[j - 1]
            }) by {}
            assert forall|j: int| 0 <= j < s.live@.len() implies #[trigger] s.nodes@[s.live@[j]].next
                == (if j + 1 < s.live@.len() {
                Some(s.live@[j + 1] as usize)
            } else {
                None::<usize>
            }) by {
                if j < k - 1 {
                    assert(s.nodes@[o.live@[j]] == o.nodes@[o.live@[j]]);
                } else if j == k - 1 {
                    assert(s.live@[j] == o.live@[k - 1]);
                } else {
                    assert(s.live@[j] == o.live@[j + 1]);
                    assert(s.nodes@[o.live@[j + 1]] == o.nodes@[o.live@[j + 1]]);
                }
            }
            assert(s.chain_linked(s.live@, s.head));
            assert forall|j: int| 0 <= j < s.avail@.len() implies #[trigger] s.nodes@[s.avail@[j]].next
                == (if j + 1 < s.avail@.len() {
                Some(s.avail@[j + 1] as usize)
            } else {
                None::<usize>
            }) by {
                if j > 0 {
                    assert(s.nodes@[o.avail@[j - 1]] == o.nodes@[o.avail@[j - 1]]);
                }
            }
            assert(s.chain_linked(s.avail@, s.free));
            assert(s.live@.no_duplicates()) by {
                assert forall|i: int, j: int|
                    0 <= i < j < s.live@.len() implies s.live@[i] != s.live@[j] by {}
            }
            assert(s.avail@.no_duplicates()) by {
                assert forall|i: int, j: int|
                    0 <= i < j < s.avail@.len() implies s.avail@[i] != s.avail@[j] by {
                    if i == 0 {
                        assert(!o.avail@.contains(cur as int));
                    }
                }
            }
            assert forall|j: int|
                0 <= j < s.live@.len() implies !s.avail@.contains(#[trigger] s.live@[j]) by {
                let x = s.live@[j];
                assert(o.live@.contains(x));
                if s.avail@.contains(x) {
                    let m = choose|m: int| 0 <= m < s.avail@.len() && s.avail@[m] == x;
                    if m == 0 {
                        assert(x == cur as int);
                        assert(o.live@.no_duplicates());
                        if j < k {
                            assert(o.live@[j] == o.live@[k]);
                        } else {
                            assert(o.live@[j + 1] == o.live@[k]);
                        }
                    } else {
                        assert(o.avail@[m - 1] == x);
                        assert(o.avail@.contains(x));
                        let n = choose|n: int| 0 <= n < o.live@.len() && o.live@[n] == x;
                        assert(!o.avail@.contains(o.live@[n]));
                    }
                }
            }
            assert forall|j: int|
                0 <= j < s.live@.len() implies s.nodes@[#[trigger] s.live@[j]].data is Some by {
                if j < k - 1 || j == k - 1 {
                    assert(s.live@[j] == o.live@[j]);
                } else {
                    assert(s.live@[j] == o.live@[j + 1]);
                }
            }
            assert forall|j: int|
                0 <= j < s.avail@.len() implies s.nodes@[#[trigger] s.avail@[j]].data is None by {
                if j > 0 {
                    assert(s.nodes@[o.avail@[j - 1]] == o.nodes@[o.avail@[j - 1]]);
                }
            }
            assert(s.wf());
            assert(s@ =~= o@.remove(k)) by {
                assert forall|j: int| 0 <= j < s@.len() implies s@[j] == o@.remove(k)[j] by {
                    if j < k {
                        assert(s.live@[j] == o.live@[j]);
                        assert(s.nodes@[o.live@[j]].data == o.nodes@[o.live@[j]].data);
                    } else {
                        assert(s.live@[j] == o.live@[j + 1]);
                        assert(s.nodes@[o.live@[j + 1]].data == o.nodes@[o.live@[j + 1]].data);
                    }
                }
            }
        }
    }

    /// Replaces the element of the live slot at position `k` (slot index `i`)
    /// in place; the chains are untouched.
    fn set_data_at(&mut self, i: usize, data: T, Ghost(k): Ghost<int>)
        requires
            old(self).wf(),
            0 <= k < old(self).live@.len(),
            i == old(self).live@[k] as usize,
        ensures
            final(self).wf(),
            final(self)@ == old(self)@.update(k, data),
    {
        proof {
            assert(old(self).live@.contains(i as int));
        }
        let mut slot = self.nodes[i];
        slot.data = Some(data);
        self.nodes[i] = slot;
        proof {
            let o = *old(self);
            let s = *self;
            assert forall|j: int| 0 <= j < o.live@.len() && j != k implies s.nodes@[#[trigger] o
                .live@[j]].data == o.nodes@[o.live@[j]].data by {
                assert(o.live@.no_duplicates());
            }
            assert forall|j: int| 0 <= j < o.avail@.len() implies s.nodes@[#[trigger] o.avail@[j]]
                == o.nodes@[o.avail@[j]] by {
                assert(!o.avail@.contains(i as int));
            }
            assert forall|j: int| 0 <= j < o.live@.len() implies s.nodes@[#[trigger] o.live@[j]].next
                == o.nodes@[o.live@[j]].next by {}
            assert(s.wf());
            assert(s@ =~= o@.update(k, data));
        }
    }

}

} // verus!
