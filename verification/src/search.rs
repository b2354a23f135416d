//! Looking a value up in a sorted list.

use vstd::prelude::*;

verus! {

/// What the standard library's binary search answers for the list `list` and
/// the value `x`. On a list that is not sorted the answer is left open.
pub uninterp spec fn binary_search_outcome(list: Seq<usize>, x: usize) -> Result<usize, usize>;

/// The list is in ascending order.
pub open spec fn sorted(list: Seq<usize>) -> bool {
    forall|i: int, j: int| 0 <= i < j < list.len() ==> list[i] <= list[j]
}

/// The list is in ascending order and holds no value twice.
pub open spec fn strictly_sorted(list: Seq<usize>) -> bool {
    forall|i: int, j: int| 0 <= i < j < list.len() ==> list[i] < list[j]
}

/// On a sorted list the answer `found` is reliable: `Ok` carries a position
/// of `x`, and `Err` means that `x` is absent.
pub open spec fn search_sound(list: Seq<usize>, x: usize, found: Result<usize, usize>) -> bool {
    sorted(list) ==> match found {
        Ok(i) => i < list.len() && list[i as int] == x,
        Err(i) => i <= list.len() && !list.contains(x),
    }
}

/// Calls `slice::binary_search` of the standard library on `list`.
///
/// Not proved: that the answer depends on the list's contents and `x` alone,
/// and that on a list in ascending order `Ok(i)` gives an index at which `x`
/// stands, while `Err(i)` gives an index no greater than the length and is
/// returned only when `x` does not occur.
#[verifier::external_body]
pub(crate) fn search_sorted(list: &Vec<usize>, x: usize) -> (found: Result<usize, usize>)
    ensures
        found == binary_search_outcome(list@, x),
        search_sound(list@, x, found),
{
    list.binary_search(&x)
}

/// The list after a search-and-remove: the element at the position that the
/// search reported is taken out; a miss, or a position past the end, leaves
/// the list as it was.
pub open spec fn detach(list: Seq<usize>, found: Result<usize, usize>) -> Seq<usize> {
    match found {
        Ok(i) => if i < list.len() {
            list.remove(i as int)
        } else {
            list
        },
        Err(_) => list,
    }
}

/// Removing the reported occurrence from a list without repetitions leaves
/// no occurrence behind.
pub proof fn lemma_detach_removes(list: Seq<usize>, x: usize, found: Result<usize, usize>)
    requires
        strictly_sorted(list),
        search_sound(list, x, found),
    ensures
        !detach(list, found).contains(x),
        strictly_sorted(detach(list, found)),
{
    assert(sorted(list));
    let rest = detach(list, found);
    match found {
        Ok(i) => {
            assert forall|j: int| 0 <= j < rest.len() implies rest[j] != x by {
                if j < i {
                    assert(rest[j] == list[j]);
                } else {
                    assert(rest[j] == list[j + 1]);
                }
            }
        },
        Err(_) => {},
    }
}

/// A search-and-remove on a sorted list takes out nothing but the value
/// searched for, and adds nothing.
pub proof fn lemma_detach_keeps_others(list: Seq<usize>, x: usize, found: Result<usize, usize>)
    requires
        sorted(list),
        search_sound(list, x, found),
    ensures
        forall|v: usize| detach(list, found).contains(v) ==> list.contains(v),
        forall|v: usize| list.contains(v) && v != x ==> detach(list, found).contains(v),
{
    let rest = detach(list, found);
    assert forall|v: usize| rest.contains(v) implies list.contains(v) by {
        let j = choose|j: int| 0 <= j < rest.len() && rest[j] == v;
        match found {
            Ok(i) => {
                if j < i {
                    assert(list[j] == v);
                } else {
                    assert(list[j + 1] == v);
                }
            },
            Err(_) => {
                assert(list[j] == v);
            },
        }
    }
    assert forall|v: usize| list.contains(v) && v != x implies rest.contains(v) by {
        let j = choose|j: int| 0 <= j < list.len() && list[j] == v;
        match found {
            Ok(i) => {
                if j < i {
                    assert(rest[j] == v);
                } else {
                    assert(rest[j - 1] == v);
                }
            },
            Err(_) => {
                assert(rest[j] == v);
            },
        }
    }
}

} // verus!
