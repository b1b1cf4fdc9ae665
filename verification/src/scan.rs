//! What the categorizer makes of a whole byte sequence: the state it is in
//! after a prefix, and the category it gives to each position.

use vstd::prelude::*;
use crate::categorizer::{CategorizedByte, ScanState};

verus! {

/// The state of a categorizer that started fresh and has read all of `data`.
pub open spec fn state_after(data: Seq<u8>) -> ScanState
    decreases data.len(),
{
    if data.len() == 0 {
        ScanState::fresh()
    } else {
        state_after(data.drop_last()).next(data.last())
    }
}

/// The category that a categorizer started fresh at the beginning of `data`
/// gives to the byte at position `i`.
pub open spec fn category_at(data: Seq<u8>, i: int) -> CategorizedByte
    recommends
        0 <= i < data.len(),
{
    state_after(data.take(i)).category(data[i])
}

/// Whether position `i` of `data` holds the structural tag `tag`.
pub open spec fn is_tag_at(data: Seq<u8>, i: int, tag: u8) -> bool {
    0 <= i < data.len() && category_at(data, i) == CategorizedByte::Tag(tag)
}

/// Reading one more byte moves the state by one step.
pub proof fn lemma_state_after_step(data: Seq<u8>, i: int)
    requires
        0 <= i < data.len(),
    ensures
        state_after(data.take(i + 1)) == state_after(data.take(i)).next(data[i]),
{
    assert(data.take(i + 1).drop_last() =~= data.take(i));
}

/// The state after a prefix depends on that prefix only.
pub proof fn lemma_category_of_prefix(data: Seq<u8>, n: int, i: int)
    requires
        0 <= i < n <= data.len(),
    ensures
        category_at(data.take(n), i) == category_at(data, i),
{
    assert(data.take(n).take(i) =~= data.take(i));
}

/// Where a categorizer is idle after `head`, it reads what follows as if it
/// had started fresh there.
pub proof fn lemma_state_after_concat(head: Seq<u8>, tail: Seq<u8>)
    requires
        state_after(head).is_idle(),
    ensures
        state_after(head + tail) == state_after(tail),
    decreases tail.len(),
{
    if tail.len() == 0 {
        assert(head + tail =~= head);
    } else {
        lemma_state_after_concat(head, tail.drop_last());
        assert((head + tail).drop_last() =~= head + tail.drop_last());
    }
}

/// Positions inside `head` are categorized alike in `head` and in any
/// sequence that starts with `head`.
pub proof fn lemma_category_in_head(head: Seq<u8>, tail: Seq<u8>, i: int)
    requires
        0 <= i < head.len(),
    ensures
        category_at(head + tail, i) == category_at(head, i),
{
    assert((head + tail).take(i) =~= head.take(i));
}

/// Where a categorizer is idle after `head`, positions of `tail` are
/// categorized alike in `tail` alone and behind `head`.
pub proof fn lemma_category_in_tail(head: Seq<u8>, tail: Seq<u8>, i: int)
    requires
        state_after(head).is_idle(),
        0 <= i < tail.len(),
    ensures
        category_at(head + tail, head.len() + i) == category_at(tail, i),
{
    lemma_state_after_concat(head, tail.take(i));
    assert((head + tail).take(head.len() + i) =~= head + tail.take(i));
}

} // verus!
