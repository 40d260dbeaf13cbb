//! The mathematical model shared by both list variants.
//!
//! Both lists are specified against a sequence of stored elements. Elements
//! are matched by their abstract values (deep views), so one set of spec
//! functions describes searching, inserting, deleting and updating for every
//! element type, and both storage strategies promise the same behavior over
//! these functions.
use vstd::prelude::*;

verus! {

/// Two elements hold the same abstract value.
pub open spec fn same_value<T: DeepView>(a: T, b: T) -> bool {
    a.deep_view() == b.deep_view()
}

/// Some element of `s` holds the same abstract value as `v`.
pub open spec fn has_value<T: DeepView>(s: Seq<T>, v: T) -> bool {
    exists|k: int| 0 <= k < s.len() && same_value(s[k], v)
}

/// The position of the first element of `s` that holds the same abstract
/// value as `v`; `s.len()` if there is none.
pub open spec fn first_match<T: DeepView>(s: Seq<T>, v: T) -> int
    decreases s.len(),
{
    if s.len() == 0 {
        0
    } else if same_value(s[0], v) {
        0
    } else {
        1 + first_match(s.subrange(1, s.len() as int), v)
    }
}

pub proof fn lemma_first_match<T: DeepView>(s: Seq<T>, v: T)
    ensures
        0 <= first_match(s, v) <= s.len(),
        first_match(s, v) < s.len() <==> has_value(s, v),
        first_match(s, v) < s.len() ==> same_value(s[first_match(s, v)], v),
        forall|k: int| 0 <= k < first_match(s, v) ==> !same_value(s[k], v),
    decreases s.len(),
{
    if s.len() == 0 {
    } else if same_value(s[0], v) {
    } else {
        let rest = s.subrange(1, s.len() as int);
        lemma_first_match(rest, v);
        assert forall|k: int| 0 <= k < s.len() && same_value(s[k], v) implies
            first_match(s, v) < s.len() by {
            assert(k != 0);
            assert(rest[k - 1] == s[k]);
        }
        assert forall|k: int| 0 <= k < first_match(s, v) implies !same_value(s[k], v) by {
            if k != 0 {
                assert(rest[k - 1] == s[k]);
            }
        }
        if has_value(rest, v) {
            assert(s[first_match(s, v)] == rest[first_match(rest, v)]);
        }
    }
}

/// How searching decomposes over a sequence split into its first element and
/// the rest.
pub proof fn lemma_value_ops_cons<T: DeepView>(x: T, s: Seq<T>, v: T)
    ensures
        has_value(seq![x] + s, v) == (same_value(x, v) || has_value(s, v)),
        same_value(x, v) ==> first_match(seq![x] + s, v) == 0,
        !same_value(x, v) ==> first_match(seq![x] + s, v) == 1 + first_match(s, v),
{
    let c = seq![x] + s;
    assert(c[0] == x);
    assert(c.subrange(1, c.len() as int) =~= s);
    if has_value(s, v) {
        let k = choose|k: int| 0 <= k < s.len() && same_value(s[k], v);
        assert(c[k + 1] == s[k]);
    }
    assert forall|k: int| 0 <= k < c.len() && same_value(c[k], v) implies
        same_value(x, v) || has_value(s, v) by {
        if k != 0 {
            assert(s[k - 1] == c[k]);
        }
    }
}

/// What `insert` leaves behind on the heap-node list: the value is appended
/// unless an element with the same abstract value is already present.
pub open spec fn insert_value<T: DeepView>(s: Seq<T>, v: T) -> Seq<T> {
    if has_value(s, v) {
        s
    } else {
        s.push(v)
    }
}

/// What `insert` leaves behind on the fixed-capacity list: duplicates are
/// suppressed as on the heap-node list, and a full list ignores the insert.
pub open spec fn insert_bounded<T: DeepView>(s: Seq<T>, v: T, cap: nat) -> Seq<T> {
    if has_value(s, v) {
        s
    } else if s.len() >= cap {
        s
    } else {
        s.push(v)
    }
}

/// What `insert_at_index` leaves behind: a splice at `i`, or the sequence
/// unchanged when `i` is out of range. `i == s.len()` appends.
pub open spec fn insert_at<T: DeepView>(s: Seq<T>, i: int, v: T) -> Seq<T> {
    if 0 <= i <= s.len() {
        s.insert(i, v)
    } else {
        s
    }
}

/// The fixed-capacity variant of `insert_at`: a full list ignores the splice.
pub open spec fn insert_at_bounded<T: DeepView>(s: Seq<T>, i: int, v: T, cap: nat) -> Seq<T> {
    if s.len() >= cap {
        s
    } else {
        insert_at(s, i, v)
    }
}

/// What `delete_element` leaves behind: the first element with the same
/// abstract value as `v` is removed; an absent value leaves `s` unchanged.
pub open spec fn delete_value<T: DeepView>(s: Seq<T>, v: T) -> Seq<T> {
    if has_value(s, v) {
        s.remove(first_match(s, v))
    } else {
        s
    }
}

/// What `delete_at_index` leaves behind: an out-of-range index leaves `s`
/// unchanged.
pub open spec fn delete_at<T: DeepView>(s: Seq<T>, i: int) -> Seq<T> {
    if 0 <= i < s.len() {
        s.remove(i)
    } else {
        s
    }
}

/// What `update_element` leaves behind: the first element with the same
/// abstract value as `from` is replaced by `to` in place.
pub open spec fn update_value<T: DeepView>(s: Seq<T>, from: T, to: T) -> Seq<T> {
    if has_value(s, from) {
        s.update(first_match(s, from), to)
    } else {
        s
    }
}

/// What `update_element_at_index` leaves behind: an out-of-range index leaves
/// `s` unchanged.
pub open spec fn update_at<T: DeepView>(s: Seq<T>, i: int, v: T) -> Seq<T> {
    if 0 <= i < s.len() {
        s.update(i, v)
    } else {
        s
    }
}

/// No two elements of `s` hold the same abstract value.
pub open spec fn distinct_values<T: DeepView>(s: Seq<T>) -> bool {
    forall|j: int, k: int| 0 <= j < k < s.len() ==> !same_value(s[j], s[k])
}

/// The contents after inserting each element of `vs` in turn into a list
/// holding `s`, on the heap-node list.
pub open spec fn insert_all<T: DeepView>(s: Seq<T>, vs: Seq<T>) -> Seq<T>
    decreases vs.len(),
{
    if vs.len() == 0 {
        s
    } else {
        insert_value(insert_all(s, vs.drop_last()), vs.last())
    }
}

/// The contents after inserting each element of `vs` in turn into a
/// fixed-capacity list holding `s`.
pub open spec fn insert_all_bounded<T: DeepView>(s: Seq<T>, vs: Seq<T>, cap: nat) -> Seq<T>
    decreases vs.len(),
{
    if vs.len() == 0 {
        s
    } else {
        insert_bounded(insert_all_bounded(s, vs.drop_last(), cap), vs.last(), cap)
    }
}

/// Inserting values with pairwise distinct abstract values into an empty
/// heap-node list yields exactly those values, in insertion order.
pub proof fn lemma_insert_all_distinct<T: DeepView>(vs: Seq<T>)
    requires
        distinct_values(vs),
    ensures
        insert_all(Seq::<T>::empty(), vs) == vs,
    decreases vs.len(),
{
    if vs.len() == 0 {
        assert(insert_all(Seq::<T>::empty(), vs) =~= vs);
    } else {
        let prefix = vs.drop_last();
        lemma_insert_all_distinct(prefix);
        assert(!has_value(prefix, vs.last()));
        assert(insert_all(Seq::<T>::empty(), vs) =~= vs);
    }
}

/// Inserting at most `cap` values with pairwise distinct abstract values into
/// an empty fixed-capacity list of capacity `cap` yields exactly those values,
/// in insertion order.
pub proof fn lemma_insert_all_bounded_distinct<T: DeepView>(vs: Seq<T>, cap: nat)
    requires
        distinct_values(vs),
        vs.len() <= cap,
    ensures
        insert_all_bounded(Seq::<T>::empty(), vs, cap) == vs,
    decreases vs.len(),
{
    if vs.len() == 0 {
        assert(insert_all_bounded(Seq::<T>::empty(), vs, cap) =~= vs);
    } else {
        let prefix = vs.drop_last();
        lemma_insert_all_bounded_distinct(prefix, cap);
        assert(!has_value(prefix, vs.last()));
        assert(insert_all_bounded(Seq::<T>::empty(), vs, cap) =~= vs);
    }
}

/// As long as the fixed-capacity list is not full, both storage strategies
/// agree on every operation: the searching, splicing, deleting and updating
/// functions above are shared verbatim, and insertion differs only once the
/// capacity is exhausted.
pub proof fn lemma_insert_agreement<T: DeepView>(s: Seq<T>, v: T, cap: nat)
    requires
        s.len() < cap,
    ensures
        insert_bounded(s, v, cap) == insert_value(s, v),
{
}

/// A full fixed-capacity list ignores a further insert.
pub proof fn lemma_insert_full<T: DeepView>(s: Seq<T>, v: T, cap: nat)
    requires
        s.len() == cap,
    ensures
        insert_bounded(s, v, cap) == s,
{
}

/// Deleting a present value frees exactly one slot, so inserting a fresh
/// value afterwards succeeds again even on a previously full list, and the
/// length never exceeds the capacity.
pub proof fn lemma_delete_then_insert<T: DeepView>(s: Seq<T>, v: T, w: T, cap: nat)
    requires
        s.len() <= cap,
        has_value(s, v),
        !has_value(delete_value(s, v), w),
    ensures
        insert_bounded(delete_value(s, v), w, cap) == delete_value(s, v).push(w),
        insert_bounded(delete_value(s, v), w, cap).len() == s.len(),
        insert_bounded(delete_value(s, v), w, cap).len() <= cap,
{
    lemma_first_match(s, v);
}

/// One operation of the shared method set, at the level of the model.
pub enum ListOp<T> {
    Insert(T),
    InsertAt(usize, T),
    DeleteValue(T),
    DeleteAt(usize),
    UpdateValue(T, T),
    UpdateAt(usize, T),
}

/// What one operation leaves behind on a fixed-capacity list of capacity
/// `cap` holding `s`.
pub open spec fn apply_op<T: DeepView>(s: Seq<T>, op: ListOp<T>, cap: nat) -> Seq<T> {
    match op {
        ListOp::Insert(v) => insert_bounded(s, v, cap),
        ListOp::InsertAt(i, v) => insert_at_bounded(s, i as int, v, cap),
        ListOp::DeleteValue(v) => delete_value(s, v),
        ListOp::DeleteAt(i) => delete_at(s, i as int),
        ListOp::UpdateValue(from, to) => update_value(s, from, to),
        ListOp::UpdateAt(i, v) => update_at(s, i as int, v),
    }
}

/// What a sequence of operations leaves behind, applied in order.
pub open spec fn apply_ops<T: DeepView>(s: Seq<T>, ops: Seq<ListOp<T>>, cap: nat) -> Seq<T>
    decreases ops.len(),
{
    if ops.len() == 0 {
        s
    } else {
        apply_op(apply_ops(s, ops.drop_last(), cap), ops.last(), cap)
    }
}

/// No single operation pushes the contents of a fixed-capacity list past its
/// capacity.
pub proof fn lemma_op_len_bounded<T: DeepView>(s: Seq<T>, op: ListOp<T>, cap: nat)
    requires
        s.len() <= cap,
    ensures
        apply_op(s, op, cap).len() <= cap,
{
    match op {
        ListOp::DeleteValue(v) => {
            lemma_first_match(s, v);
        },
        ListOp::UpdateValue(from, to) => {
            lemma_first_match(s, from);
        },
        _ => {},
    }
}

/// Under any interleaving of the shared operations, the contents of a
/// fixed-capacity list never exceed its capacity: slots are reused, never
/// leaked or duplicated.
pub proof fn lemma_ops_len_bounded<T: DeepView>(s: Seq<T>, ops: Seq<ListOp<T>>, cap: nat)
    requires
        s.len() <= cap,
    ensures
        apply_ops(s, ops, cap).len() <= cap,
    decreases ops.len(),
{
    if ops.len() > 0 {
        lemma_ops_len_bounded(s, ops.drop_last(), cap);
        lemma_op_len_bounded(apply_ops(s, ops.drop_last(), cap), ops.last(), cap);
    }
}

} // verus!
