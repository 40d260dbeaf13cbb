//! The element contract shared by both list variants.
//!
//! Every operation that compares or returns stored values requires the element
//! type to support equality comparison and duplication with value-copy
//! semantics. `ListElem` captures exactly that: a `Copy` type with an
//! executable equality test that decides equality of the elements' abstract
//! values (their deep views).
use vstd::prelude::*;

verus! {

/// An element that can be stored in the lists: copyable, with an executable
/// equality test that agrees with equality of the abstract values.
pub trait ListElem: Sized + Copy + DeepView {
    /// Decides whether two elements hold the same abstract value.
    fn eq_elem(&self, other: &Self) -> (r: bool)
        ensures
            r == (self.deep_view() == other.deep_view()),
    ;
}

impl ListElem for i32 {
    fn eq_elem(&self, other: &Self) -> (r: bool) {
        *self == *other
    }
}

impl ListElem for u64 {
    fn eq_elem(&self, other: &Self) -> (r: bool) {
        *self == *other
    }
}

impl<'a> ListElem for &'a str {
    fn eq_elem(&self, other: &Self) -> (r: bool) {
        str_eq(*self, *other)
    }
}

/// Character-by-character string equality, decided against the string views.
fn str_eq(a: &str, b: &str) -> (r: bool)
    ensures
        r == (a@ == b@),
{
    let a_len = a.unicode_len();
    let b_len = b.unicode_len();
    if a_len != b_len {
        assert(a@ != b@) by {
            assert(a@.len() != b@.len());
        }
        return false;
    }
    let mut i: usize = 0;
    while i < a_len
        invariant
            i <= a_len,
            forall|j: int| 0 <= j < i ==> a@[j] == b@[j],
        decreases a_len - i,
    {
        if a.get_char(i) != b.get_char(i) {
            return false;
        }
        i = i + 1;
    }
    proof {
        assert(a@ =~= b@);
    }
    true
}

} // verus!
