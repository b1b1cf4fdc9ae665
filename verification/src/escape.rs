//! Payload is opaque: what the bytes of an escape run are makes no
//! difference to where the tags and the sections of a byte sequence are.

use vstd::prelude::*;
use crate::categorizer::CategorizedByte;
use crate::hunt::{hunt_state, section_bounds};
use crate::scan::{category_at, lemma_category_of_prefix, state_after};

verus! {

/// Whether two byte sequences are the same but for the values of payload
/// bytes: they are equally long, and wherever they differ, the byte of the
/// first is payload.
pub open spec fn same_but_payload(first: Seq<u8>, second: Seq<u8>) -> bool {
    &&& first.len() == second.len()
    &&& forall|i: int|
        0 <= i < first.len() ==> #[trigger] category_at(first, i) is Number || first[i]
            == second[i]
}

/// Whether two categories are the same but for the value of a payload
/// byte.
pub open spec fn same_kind(one: CategorizedByte, other: CategorizedByte) -> bool {
    match one {
        CategorizedByte::Number(_) => other is Number,
        _ => one == other,
    }
}

/// Sequences that differ in payload only take the categorizer and a search
/// for sections through the same states.
pub proof fn lemma_same_states(first: Seq<u8>, second: Seq<u8>, n: int, start: u8, end: u8)
    requires
        same_but_payload(first, second),
        0 <= n <= first.len(),
    ensures
        state_after(first.take(n)) == state_after(second.take(n)),
        hunt_state(first.take(n), start, end) == hunt_state(second.take(n), start, end),
    decreases n,
{
    if n == 0 {
        assert(first.take(0) =~= second.take(0));
    } else {
        lemma_same_states(first, second, n - 1, start, end);
        assert(first.take(n).drop_last() =~= first.take(n - 1));
        assert(second.take(n).drop_last() =~= second.take(n - 1));
        lemma_category_of_prefix(first, n, n - 1);
        lemma_category_of_prefix(second, n, n - 1);
        assert(category_at(first, n - 1) is Number || first[n - 1] == second[n - 1]);
    }
}

/// A payload byte is never taken for a tag, whatever its value is:
/// sequences that differ in payload only have a byte of the same category
/// at every position, and the same sections between any two tags.
pub proof fn lemma_payload_is_opaque(first: Seq<u8>, second: Seq<u8>, start: u8, end: u8)
    requires
        same_but_payload(first, second),
    ensures
        forall|i: int|
            0 <= i < first.len() ==> same_kind(
                #[trigger] category_at(first, i),
                category_at(second, i),
            ),
        section_bounds(first, start, end) == section_bounds(second, start, end),
{
    assert forall|i: int| 0 <= i < first.len() implies same_kind(
        #[trigger] category_at(first, i),
        category_at(second, i),
    ) by {
        lemma_same_states(first, second, i, start, end);
    }
    lemma_same_states(first, second, first.len() as int, start, end);
    assert(first.take(first.len() as int) =~= first);
    assert(second.take(first.len() as int) =~= second);
}

} // verus!
