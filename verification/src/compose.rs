//! How scanning composes: what the categorizer and the tag hunter make of a
//! byte sequence put together from parts, in terms of what they make of the
//! parts.
//!
//! A part that leaves the categorizer idle is self-contained: whatever
//! follows it is read as if the scan had started there.

use vstd::prelude::*;
use crate::bytes::u16_from_le;
use crate::categorizer::{
    fixed_escape_len, is_escape_marker, BigSkipState, CategorizedByte, ScanState,
};
use crate::hunt::{
    first_tag, hunt_state, is_first_tag, lemma_first_tag_is, lemma_hunt_state_bounds, numbers,
    section_bounds, sections,
};
use crate::tags_u8;
use crate::scan::{
    category_at, is_tag_at, lemma_category_in_head, lemma_category_in_tail,
    lemma_category_of_prefix, lemma_state_after_concat, state_after,
};

verus! {

/// Whether a categorizer that has read all of `data` looks at the next byte
/// as a tag or an escape marker: no payload and no length byte is due.
pub open spec fn idle_after(data: Seq<u8>) -> bool {
    state_after(data).is_idle()
}

/// Whether no position of `data` holds the tag `tag`.
pub open spec fn tag_free(data: Seq<u8>, tag: u8) -> bool {
    forall|i: int| !is_tag_at(data, i, tag)
}

/// Nothing is idle like the empty sequence, and it holds no tag.
pub proof fn lemma_empty(tag: u8)
    ensures
        idle_after(Seq::<u8>::empty()),
        tag_free(Seq::<u8>::empty(), tag),
        numbers(Seq::<u8>::empty()) == Seq::<u8>::empty(),
{
}

/// A self-contained part followed by another: the scan ends as it ends
/// after the second part alone.
pub proof fn lemma_idle_concat(head: Seq<u8>, tail: Seq<u8>)
    requires
        idle_after(head),
    ensures
        idle_after(head + tail) == idle_after(tail),
{
    lemma_state_after_concat(head, tail);
}

/// Two parts without a tag, the first self-contained, make a whole without
/// that tag.
pub proof fn lemma_tag_free_concat(head: Seq<u8>, tail: Seq<u8>, tag: u8)
    requires
        idle_after(head),
        tag_free(head, tag),
        tag_free(tail, tag),
    ensures
        tag_free(head + tail, tag),
{
    assert forall|i: int| !is_tag_at(head + tail, i, tag) by {
        if 0 <= i < head.len() {
            lemma_category_in_head(head, tail, i);
            assert(!is_tag_at(head, i, tag));
        } else if head.len() <= i < head.len() + tail.len() {
            lemma_category_in_tail(head, tail, i - head.len());
            assert(!is_tag_at(tail, i - head.len(), tag));
        }
    }
}

/// A sequence without a tag has none in any of its prefixes.
pub proof fn lemma_tag_free_prefix(data: Seq<u8>, n: int, tag: u8)
    requires
        0 <= n <= data.len(),
        tag_free(data, tag),
    ensures
        tag_free(data.take(n), tag),
{
    assert forall|i: int| !is_tag_at(data.take(n), i, tag) by {
        if 0 <= i < n {
            lemma_category_of_prefix(data, n, i);
            assert(!is_tag_at(data, i, tag));
        }
    }
}

/// The payload of a self-contained part followed by another is the payload
/// of the one followed by the payload of the other.
pub proof fn lemma_numbers_concat(head: Seq<u8>, tail: Seq<u8>)
    requires
        idle_after(head),
    ensures
        numbers(head + tail) == numbers(head) + numbers(tail),
    decreases tail.len(),
{
    if tail.len() == 0 {
        assert(head + tail =~= head);
        assert(numbers(head) + numbers(tail) =~= numbers(head));
    } else {
        lemma_numbers_concat(head, tail.drop_last());
        assert((head + tail).drop_last() =~= head + tail.drop_last());
        lemma_category_in_tail(head, tail, tail.len() - 1);
        assert(numbers(head + tail) =~= numbers(head) + numbers(tail));
    }
}

/// A byte that is no escape marker, read by an idle categorizer, is a tag
/// and leaves the categorizer idle.
pub proof fn lemma_single_tag(tag: u8)
    requires
        !is_escape_marker(tag),
    ensures
        idle_after(seq![tag]),
        is_tag_at(seq![tag], 0, tag),
        numbers(seq![tag]) == Seq::<u8>::empty(),
        forall|other: u8| other != tag ==> tag_free(seq![tag], other),
{
    let one = seq![tag];
    assert(one.drop_last() =~= Seq::<u8>::empty());
    assert(one.take(0) =~= Seq::<u8>::empty());
    assert(state_after(one) == ScanState::fresh().next(tag));
    assert(category_at(one, 0) == CategorizedByte::Tag(tag));
    assert(numbers(Seq::<u8>::empty()) =~= Seq::<u8>::empty());
    assert forall|other: u8| other != tag implies tag_free(one, other) by {
        assert forall|i: int| !is_tag_at(one, i, other) by {}
    }
}

/// The bytes that an escape announces are payload whatever their values
/// are: while payload is pending, every byte is categorized as a number and
/// takes one from what is pending.
pub proof fn lemma_payload_run(head: Seq<u8>, run: Seq<u8>)
    requires
        run.len() <= state_after(head).pending,
    ensures
        state_after(head + run) == (ScanState {
            pending: (state_after(head).pending - run.len()) as nat,
            wait: state_after(head).wait,
        }),
        forall|i: int|
            0 <= i < run.len() ==> #[trigger] category_at(head + run, head.len() + i)
                == CategorizedByte::Number(run[i]),
    decreases run.len(),
{
    if run.len() == 0 {
        assert(head + run =~= head);
    } else {
        let shorter = run.drop_last();
        lemma_payload_run(head, shorter);
        assert((head + run).drop_last() =~= head + shorter);
        assert forall|i: int| 0 <= i < run.len() implies #[trigger] category_at(
            head + run,
            head.len() + i,
        ) == CategorizedByte::Number(run[i]) by {
            if i < shorter.len() {
                lemma_category_of_prefix(
                    head + run,
                    (head.len() + shorter.len()) as int,
                    head.len() + i,
                );
                assert((head + run).take((head.len() + shorter.len()) as int) =~= head + shorter);
            } else {
                assert((head + run).take(head.len() + i) =~= head + shorter);
            }
        }
    }
}

/// An escape is self-contained, holds no tag whatever its payload bytes
/// are, and has those bytes as its payload. The escape is given as its
/// marker and length bytes, `head`, and the bytes that follow, `run`.
proof fn lemma_escape(head: Seq<u8>, run: Seq<u8>)
    requires
        state_after(head) == (ScanState { pending: run.len(), wait: BigSkipState::NotBigSkip }),
        forall|i: int| 0 <= i < head.len() ==> category_at(head, i) == CategorizedByte::Skip,
    ensures
        idle_after(head + run),
        numbers(head + run) == run,
        forall|tag: u8| tag_free(head + run, tag),
{
    let whole = head + run;
    lemma_payload_run(head, run);
    assert forall|tag: u8| tag_free(whole, tag) by {
        assert forall|i: int| !is_tag_at(whole, i, tag) by {
            if 0 <= i < head.len() {
                lemma_category_in_head(head, run, i);
            } else if head.len() <= i < whole.len() {
                assert(category_at(whole, head.len() + (i - head.len()))
                    == CategorizedByte::Number(run[i - head.len()]));
            }
        }
    }
    lemma_numbers_of_run(head, run, run.len() as int);
    lemma_numbers_none(head);
    assert(whole.take((head.len() + run.len()) as int) =~= whole);
    assert(run.take(run.len() as int) =~= run);
    assert(numbers(head) + run =~= run);
}

/// A sequence without payload bytes has no payload.
proof fn lemma_numbers_none(data: Seq<u8>)
    requires
        forall|i: int| 0 <= i < data.len() ==> !(category_at(data, i) is Number),
    ensures
        numbers(data) == Seq::<u8>::empty(),
    decreases data.len(),
{
    if data.len() > 0 {
        let shorter = data.drop_last();
        assert forall|i: int| 0 <= i < shorter.len() implies !(category_at(shorter, i) is Number) by {
            assert(shorter =~= data.take(data.len() - 1));
            lemma_category_of_prefix(data, data.len() - 1, i);
        }
        lemma_numbers_none(shorter);
    }
}

/// A fixed-length escape marker followed by as many bytes as it announces
/// is self-contained, holds no tag whatever the bytes are, and has those
/// bytes as its payload.
pub proof fn lemma_fixed_escape(marker: u8, run: Seq<u8>)
    requires
        fixed_escape_len(marker) == Some(run.len()),
    ensures
        idle_after(seq![marker] + run),
        numbers(seq![marker] + run) == run,
        forall|tag: u8| tag_free(seq![marker] + run, tag),
{
    let head = seq![marker];
    assert(head.drop_last() =~= Seq::<u8>::empty());
    assert(head.take(0) =~= Seq::<u8>::empty());
    assert(state_after(Seq::<u8>::empty()) == ScanState::fresh());
    assert(state_after(head) == ScanState::fresh().next(marker));
    lemma_escape(head, run);
}

/// The marker of the 8-bit-length escape, a length byte and two bytes more
/// than the length byte declares are self-contained, hold no tag whatever
/// the bytes are, and have the bytes behind the length byte as payload.
pub proof fn lemma_u8_length_escape(declared: u8, run: Seq<u8>)
    requires
        run.len() == declared + 2,
    ensures
        idle_after(seq![tags_u8::SKIP_U8, declared] + run),
        numbers(seq![tags_u8::SKIP_U8, declared] + run) == run,
        forall|tag: u8| tag_free(seq![tags_u8::SKIP_U8, declared] + run, tag),
{
    let head = seq![tags_u8::SKIP_U8, declared];
    let marker = seq![tags_u8::SKIP_U8];
    assert(head.drop_last() =~= marker);
    assert(head.take(1) =~= marker);
    assert(head.take(0) =~= Seq::<u8>::empty());
    assert(marker.drop_last() =~= Seq::<u8>::empty());
    assert(state_after(Seq::<u8>::empty()) == ScanState::fresh());
    assert(state_after(marker) == ScanState::fresh().next(tags_u8::SKIP_U8));
    lemma_escape(head, run);
}

/// The marker of the 16-bit-length escape, two length bytes and three bytes
/// more than the length bytes declare are self-contained, hold no tag
/// whatever the bytes are, and have the bytes behind the length bytes as
/// payload.
pub proof fn lemma_u16_length_escape(low: u8, high: u8, run: Seq<u8>)
    requires
        run.len() == u16_from_le(low, high) + 3,
    ensures
        idle_after(seq![tags_u8::SKIP_U16, low, high] + run),
        numbers(seq![tags_u8::SKIP_U16, low, high] + run) == run,
        forall|tag: u8| tag_free(seq![tags_u8::SKIP_U16, low, high] + run, tag),
{
    let head = seq![tags_u8::SKIP_U16, low, high];
    let first = seq![tags_u8::SKIP_U16, low];
    let marker = seq![tags_u8::SKIP_U16];
    assert(head.drop_last() =~= first);
    assert(head.take(2) =~= first);
    assert(first.drop_last() =~= marker);
    assert(head.take(1) =~= marker);
    assert(head.take(0) =~= Seq::<u8>::empty());
    assert(marker.drop_last() =~= Seq::<u8>::empty());
    assert(state_after(Seq::<u8>::empty()) == ScanState::fresh());
    assert(state_after(marker) == ScanState::fresh().next(tags_u8::SKIP_U16));
    assert(state_after(first) == state_after(marker).next(low));
    lemma_escape(head, run);
}

/// While payload is pending, what is read is added to the payload.
proof fn lemma_numbers_of_run(head: Seq<u8>, run: Seq<u8>, n: int)
    requires
        run.len() <= state_after(head).pending,
        0 <= n <= run.len(),
    ensures
        numbers((head + run).take(head.len() + n)) == numbers(head) + run.take(n),
    decreases n,
{
    let whole = head + run;
    if n == 0 {
        assert(whole.take(head.len() as int) =~= head);
        assert(numbers(head) + run.take(0) =~= numbers(head));
    } else {
        lemma_numbers_of_run(head, run, n - 1);
        lemma_payload_run(head, run);
        let part = whole.take(head.len() + n);
        assert(part.drop_last() =~= whole.take(head.len() + n - 1));
        lemma_category_of_prefix(whole, head.len() + n, head.len() + n - 1);
        assert(category_at(whole, head.len() + (n - 1)) == CategorizedByte::Number(run[n - 1]));
        assert(numbers(head) + run.take(n) =~= (numbers(head) + run.take(n - 1)).push(run[n - 1]));
    }
}

/// Behind a self-contained part without the tag, a part that begins with
/// the tag holds its first occurrence.
pub proof fn lemma_first_tag_concat(head: Seq<u8>, tail: Seq<u8>, tag: u8)
    requires
        idle_after(head),
        tag_free(head, tag),
        is_tag_at(tail, 0, tag),
    ensures
        first_tag(head + tail, tag) == Some(head.len() as int),
{
    let whole = head + tail;
    lemma_category_in_tail(head, tail, 0);
    assert forall|j: int| 0 <= j < head.len() implies !is_tag_at(whole, j, tag) by {
        lemma_category_in_head(head, tail, j);
        assert(!is_tag_at(head, j, tag));
    }
    assert(is_first_tag(whole, tag, head.len() as int));
    lemma_first_tag_is(whole, tag, head.len() as int);
}

/// A part that holds neither the opening nor the closing tag, behind a
/// self-contained part, leaves a search for sections as it was.
pub proof fn lemma_hunt_state_unchanged(head: Seq<u8>, tail: Seq<u8>, start: u8, end: u8)
    requires
        idle_after(head),
        tag_free(tail, start),
        tag_free(tail, end),
    ensures
        hunt_state(head + tail, start, end) == hunt_state(head, start, end),
    decreases tail.len(),
{
    if tail.len() == 0 {
        assert(head + tail =~= head);
    } else {
        let shorter = tail.drop_last();
        assert(shorter =~= tail.take(tail.len() - 1));
        lemma_tag_free_prefix(tail, tail.len() - 1, start);
        lemma_tag_free_prefix(tail, tail.len() - 1, end);
        lemma_hunt_state_unchanged(head, shorter, start, end);
        assert((head + tail).drop_last() =~= head + shorter);
        lemma_category_in_tail(head, tail, tail.len() - 1);
        assert(!is_tag_at(tail, tail.len() - 1, start));
        assert(!is_tag_at(tail, tail.len() - 1, end));
    }
}

/// A tag behind a self-contained part moves a search for sections by the
/// step of that tag, and the whole is self-contained again.
pub proof fn lemma_hunt_state_tag(head: Seq<u8>, tag: u8, start: u8, end: u8)
    requires
        idle_after(head),
        !is_escape_marker(tag),
    ensures
        idle_after(head.push(tag)),
        hunt_state(head.push(tag), start, end) == hunt_state(head, start, end).step(
            CategorizedByte::Tag(tag),
            head.len() as int,
            start,
            end,
        ),
{
    let whole = head.push(tag);
    assert(whole.drop_last() =~= head);
    assert(whole.take(head.len() as int) =~= head);
}

/// A bracketed part behind a self-contained part with no bracket open adds
/// exactly one section, the contents of the brackets, or none if there are
/// no contents. It takes contents that are self-contained and hold neither
/// the opening nor the closing tag.
pub proof fn lemma_bracket(head: Seq<u8>, inner: Seq<u8>, start: u8, end: u8)
    requires
        idle_after(head),
        idle_after(inner),
        hunt_state(head, start, end).depth == 0,
        !is_escape_marker(start),
        !is_escape_marker(end),
        start != end,
        tag_free(inner, start),
        tag_free(inner, end),
    ensures
        idle_after(head.push(start) + inner.push(end)),
        hunt_state(head.push(start) + inner.push(end), start, end).depth == 0,
        section_bounds(head.push(start) + inner.push(end), start, end) == if inner.len() > 0 {
            section_bounds(head, start, end).push(
                ((head.len() + 1) as int, (head.len() + 1 + inner.len()) as int),
            )
        } else {
            section_bounds(head, start, end)
        },
        sections(head.push(start) + inner.push(end), start, end) == if inner.len() > 0 {
            sections(head, start, end).push(inner)
        } else {
            sections(head, start, end)
        },
{
    let opened = head.push(start);
    let filled = opened + inner;
    let whole = opened + inner.push(end);
    lemma_hunt_state_tag(head, start, start, end);
    lemma_hunt_state_unchanged(opened, inner, start, end);
    lemma_idle_concat(opened, inner);
    lemma_hunt_state_tag(filled, end, start, end);
    assert(filled.push(end) =~= whole);
    lemma_hunt_state_bounds(head, start, end);
    let before = section_bounds(head, start, end);
    let after = section_bounds(whole, start, end);
    assert forall|k: int| 0 <= k < before.len() implies whole.subrange(before[k].0, before[k].1)
        == head.subrange(before[k].0, before[k].1) by {
        assert(whole.subrange(before[k].0, before[k].1) =~= head.subrange(
            before[k].0,
            before[k].1,
        ));
    }
    if inner.len() > 0 {
        assert(whole.subrange((head.len() + 1) as int, (head.len() + 1 + inner.len()) as int)
            =~= inner);
        assert(sections(whole, start, end) =~= sections(head, start, end).push(inner));
    } else {
        assert(sections(whole, start, end) =~= sections(head, start, end));
    }
}

/// A bracketed part is self-contained and holds no tag other than its
/// brackets and the tags of its contents.
pub proof fn lemma_bracket_tags(inner: Seq<u8>, start: u8, end: u8, tag: u8)
    requires
        idle_after(inner),
        !is_escape_marker(start),
        !is_escape_marker(end),
        tag != start,
        tag != end,
        tag_free(inner, tag),
    ensures
        idle_after(seq![start] + inner.push(end)),
        tag_free(seq![start] + inner.push(end), tag),
        numbers(seq![start] + inner.push(end)) == numbers(inner),
{
    lemma_single_tag(start);
    lemma_single_tag(end);
    assert(inner.push(end) =~= inner + seq![end]);
    lemma_idle_concat(inner, seq![end]);
    lemma_tag_free_concat(inner, seq![end], tag);
    lemma_numbers_concat(inner, seq![end]);
    lemma_idle_concat(seq![start], inner.push(end));
    lemma_tag_free_concat(seq![start], inner.push(end), tag);
    lemma_numbers_concat(seq![start], inner.push(end));
    assert(numbers(seq![start]) + (numbers(inner) + numbers(seq![end])) =~= numbers(inner));
}

} // verus!
