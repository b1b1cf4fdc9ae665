//! What a section is, in terms of nesting depth: the bytes between an
//! outermost opening tag and the closing tag that brings the depth back to
//! zero.

use vstd::prelude::*;
use crate::hunt::{depth_after, hunt_state, lemma_hunt_state_step, section_bounds};
use crate::scan::{is_tag_at, lemma_category_of_prefix};

verus! {

/// Whether the bytes of `data` from position `from` up to position `to`
/// are a section between `start` and `end` tags: an opening tag stands
/// just before them where no bracket is open, the closing tag at `to`
/// closes the last open bracket, between the two at least one bracket is
/// open all the time, and there is at least one byte.
pub open spec fn is_section(data: Seq<u8>, start: u8, end: u8, from: int, to: int) -> bool {
    &&& 0 < from < to < data.len()
    &&& is_tag_at(data, from - 1, start)
    &&& is_tag_at(data, to, end)
    &&& depth_after(data.take(from - 1), start, end) == 0
    &&& forall|j: int| from <= j <= to ==> depth_after(#[trigger] data.take(j), start, end) >= 1
    &&& depth_after(data.take(to + 1), start, end) == 0
}

/// Whether a section is open at the end of `data` whose contents begin at
/// position `from`.
pub open spec fn is_open_section(data: Seq<u8>, start: u8, end: u8, from: int) -> bool {
    &&& 0 < from <= data.len()
    &&& is_tag_at(data, from - 1, start)
    &&& depth_after(data.take(from - 1), start, end) == 0
    &&& forall|j: int|
        from <= j <= data.len() ==> depth_after(#[trigger] data.take(j), start, end) >= 1
}

/// A section of a prefix is a section of the whole.
pub proof fn lemma_section_of_prefix(
    data: Seq<u8>,
    n: int,
    start: u8,
    end: u8,
    from: int,
    to: int,
)
    requires
        0 <= n <= data.len(),
        is_section(data.take(n), start, end, from, to),
    ensures
        is_section(data, start, end, from, to),
{
    let part = data.take(n);
    lemma_category_of_prefix(data, n, from - 1);
    lemma_category_of_prefix(data, n, to);
    assert(part.take(from - 1) =~= data.take(from - 1));
    assert(part.take(to + 1) =~= data.take(to + 1));
    assert forall|j: int| from <= j <= to implies depth_after(
        #[trigger] data.take(j),
        start,
        end,
    ) >= 1 by {
        assert(part.take(j) =~= data.take(j));
    }
}

/// Every section that a search finds is a section in the sense of nesting
/// depth, and while a bracket is open the search remembers where the
/// outermost one began. So a bracket nested inside a section never ends
/// it, and a section without contents is not found.
pub proof fn lemma_found_are_sections(data: Seq<u8>, start: u8, end: u8)
    ensures
        forall|k: int|
            0 <= k < section_bounds(data, start, end).len() ==> is_section(
                data,
                start,
                end,
                (#[trigger] section_bounds(data, start, end)[k]).0,
                section_bounds(data, start, end)[k].1,
            ),
        depth_after(data, start, end) > 0 ==> is_open_section(
            data,
            start,
            end,
            hunt_state(data, start, end).start,
        ),
    decreases data.len(),
{
    if data.len() > 0 {
        let n = data.len() - 1;
        let shorter = data.drop_last();
        let before = hunt_state(shorter, start, end);
        let after = hunt_state(data, start, end);
        lemma_found_are_sections(shorter, start, end);
        assert(shorter =~= data.take(n));
        assert(data.take(n + 1) =~= data);
        if before.depth > 0 {
            let from = before.start;
            lemma_category_of_prefix(data, n, from - 1);
            assert(shorter.take(from - 1) =~= data.take(from - 1));
            assert forall|j: int| from <= j <= n implies depth_after(
                #[trigger] data.take(j),
                start,
                end,
            ) >= 1 by {
                assert(shorter.take(j) =~= data.take(j));
            }
        }
        assert forall|k: int| 0 <= k < after.found.len() implies is_section(
            data,
            start,
            end,
            (#[trigger] after.found[k]).0,
            after.found[k].1,
        ) by {
            if k < before.found.len() {
                assert(after.found[k] == section_bounds(shorter, start, end)[k]);
                lemma_section_of_prefix(
                    data,
                    n,
                    start,
                    end,
                    before.found[k].0,
                    before.found[k].1,
                );
            }
        }
    }
}

/// What a search has found in a prefix, it has found in the whole, at the
/// same place in the order.
pub proof fn lemma_found_stays(data: Seq<u8>, n: int, start: u8, end: u8)
    requires
        0 <= n <= data.len(),
    ensures
        section_bounds(data.take(n), start, end).len() <= section_bounds(data, start, end).len(),
        forall|k: int|
            0 <= k < section_bounds(data.take(n), start, end).len() ==> section_bounds(
                data,
                start,
                end,
            )[k] == #[trigger] section_bounds(data.take(n), start, end)[k],
    decreases data.len(),
{
    if n == data.len() {
        assert(data.take(n) =~= data);
    } else {
        lemma_found_stays(data.drop_last(), n, start, end);
        assert(data.drop_last().take(n) =~= data.take(n));
    }
}

/// While the bracket opened just before position `from` stays open, a
/// search remembers `from` as the beginning of its contents.
proof fn lemma_open_start(data: Seq<u8>, start: u8, end: u8, from: int, upto: int)
    requires
        start != end,
        0 < from <= upto <= data.len(),
        is_tag_at(data, from - 1, start),
        depth_after(data.take(from - 1), start, end) == 0,
        forall|j: int| from <= j <= upto ==> depth_after(#[trigger] data.take(j), start, end) >= 1,
    ensures
        hunt_state(data.take(upto), start, end).start == from,
    decreases upto - from,
{
    lemma_hunt_state_step(data, upto - 1, start, end);
    if upto > from {
        lemma_open_start(data, start, end, from, upto - 1);
        assert(depth_after(data.take(upto - 1), start, end) >= 1);
    }
}

/// Every section in the sense of nesting depth is found: the search finds
/// exactly the sections. It takes an opening tag that differs from the
/// closing tag; with one tag for both ends there are no sections.
pub proof fn lemma_sections_are_found(data: Seq<u8>, start: u8, end: u8, from: int, to: int)
    requires
        start != end,
        is_section(data, start, end, from, to),
    ensures
        section_bounds(data, start, end).contains((from, to)),
{
    lemma_open_start(data, start, end, from, to);
    lemma_hunt_state_step(data, to, start, end);
    assert(depth_after(data.take(to), start, end) >= 1);
    let closed = section_bounds(data.take(to + 1), start, end);
    assert(closed.len() > 0 && closed[closed.len() - 1] == (from, to));
    lemma_found_stays(data, to + 1, start, end);
    assert(section_bounds(data, start, end)[closed.len() - 1] == (from, to));
}

} // verus!
