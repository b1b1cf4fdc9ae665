//! The tag hunter: finds tags, bracketed sections and payload in a byte
//! sequence, looking at every byte through the categorizer so that payload
//! bytes that happen to equal a tag are never taken for one.

use vstd::prelude::*;
use crate::categorizer::{CategorizedByte, Categorizer};
use crate::scan::{
    category_at, is_tag_at, lemma_category_of_prefix, lemma_state_after_step, state_after,
};

verus! {

/// Whether `i` is the first position of `data` that holds the tag `tag`.
pub open spec fn is_first_tag(data: Seq<u8>, tag: u8, i: int) -> bool {
    &&& is_tag_at(data, i, tag)
    &&& forall|j: int| 0 <= j < i ==> !is_tag_at(data, j, tag)
}

/// The first position of `data` that holds the tag `tag`, if there is one.
pub open spec fn first_tag(data: Seq<u8>, tag: u8) -> Option<int> {
    if exists|i: int| is_first_tag(data, tag, i) {
        Some(choose|i: int| is_first_tag(data, tag, i))
    } else {
        None
    }
}

/// There is at most one first position.
pub proof fn lemma_first_tag_unique(data: Seq<u8>, tag: u8, i: int, k: int)
    requires
        is_first_tag(data, tag, i),
        is_first_tag(data, tag, k),
    ensures
        i == k,
{
    if i < k {
        assert(is_tag_at(data, i, tag));
    } else if k < i {
        assert(is_tag_at(data, k, tag));
    }
}

/// A position known to be the first one is what `first_tag` names.
pub proof fn lemma_first_tag_is(data: Seq<u8>, tag: u8, i: int)
    requires
        is_first_tag(data, tag, i),
    ensures
        first_tag(data, tag) == Some(i),
{
    let k = choose|k: int| is_first_tag(data, tag, k);
    lemma_first_tag_unique(data, tag, i, k);
}

/// Where no position holds the tag, `first_tag` names none.
pub proof fn lemma_first_tag_none(data: Seq<u8>, tag: u8)
    requires
        forall|j: int| 0 <= j < data.len() ==> !is_tag_at(data, j, tag),
    ensures
        first_tag(data, tag) is None,
{
    assert forall|i: int| !is_first_tag(data, tag, i) by {
        if is_first_tag(data, tag, i) {
            assert(is_tag_at(data, i, tag));
        }
    }
}

/// Finds the first occurrence of `tag` in `data` and returns the rest of
/// `data` from that tag on, the tag included.
pub fn hunt_tag(data: &[u8], tag: u8) -> (found: Option<&[u8]>)
    ensures
        match first_tag(data@, tag) {
            Some(i) => found matches Some(rest) && rest@ == data@.skip(i),
            None => found is None,
        },
{
    let mut categorizer = Categorizer::new();
    assert(data@.take(0) =~= Seq::<u8>::empty());
    for i in 0..data.len()
        invariant
            categorizer@ == state_after(data@.take(i as int)),
            forall|j: int| 0 <= j < i ==> !is_tag_at(data@, j, tag),
    {
        let byte = categorizer.feed(data[i]);
        proof {
            lemma_state_after_step(data@, i as int);
        }
        if byte == CategorizedByte::Tag(tag) {
            proof {
                assert(is_tag_at(data@, i as int, tag));
                lemma_first_tag_is(data@, tag, i as int);
                assert(data@.subrange(i as int, data@.len() as int) =~= data@.skip(i as int));
            }
            return Some(&data[i..data.len()]);
        }
    }
    proof {
        lemma_first_tag_none(data@, tag);
    }
    None
}

/// What a search for bracketed sections knows after a prefix of the data.
pub struct HuntState {
    /// How many brackets are open.
    pub depth: nat,
    /// Where the outermost open bracket's contents begin; meaningful only
    /// while `depth > 0`.
    pub start: int,
    /// The sections closed so far, each as the positions `(from, to)` of its
    /// first byte and of the closing tag behind it.
    pub found: Seq<(int, int)>,
}

impl HuntState {
    /// The state before the first byte: nothing open, nothing found.
    pub open spec fn initial() -> HuntState {
        HuntState { depth: 0, start: 0, found: Seq::empty() }
    }

    /// The state after an opening tag at position `i`: one more bracket is
    /// open, and if none was, the section's contents begin behind the tag.
    pub open spec fn open_at(self, i: int) -> HuntState {
        HuntState {
            depth: self.depth + 1,
            start: if self.depth == 0 {
                i + 1
            } else {
                self.start
            },
            found: self.found,
        }
    }

    /// The state after a closing tag at position `i`: with nothing open the
    /// tag is ignored; otherwise one bracket closes, and if it was the
    /// outermost, the section ends before the tag and is kept unless empty.
    pub open spec fn close_at(self, i: int) -> HuntState {
        if self.depth == 0 {
            self
        } else {
            HuntState {
                depth: (self.depth - 1) as nat,
                start: self.start,
                found: if self.depth == 1 && self.start < i {
                    self.found.push((self.start, i))
                } else {
                    self.found
                },
            }
        }
    }

    /// The state after the byte at position `i` with the given category. A
    /// byte that is both the opening and the closing tag opens, then closes.
    pub open spec fn step(self, category: CategorizedByte, i: int, start: u8, end: u8) -> HuntState {
        let opened = if category == CategorizedByte::Tag(start) {
            self.open_at(i)
        } else {
            self
        };
        if category == CategorizedByte::Tag(end) {
            opened.close_at(i)
        } else {
            opened
        }
    }
}

/// The state of a search for sections between `start` and `end` tags that
/// has read all of `data`.
pub open spec fn hunt_state(data: Seq<u8>, start: u8, end: u8) -> HuntState
    decreases data.len(),
{
    if data.len() == 0 {
        HuntState::initial()
    } else {
        hunt_state(data.drop_last(), start, end).step(
            category_at(data, data.len() - 1),
            data.len() - 1,
            start,
            end,
        )
    }
}

/// The nesting depth of `start`/`end` brackets after all of `data`.
pub open spec fn depth_after(data: Seq<u8>, start: u8, end: u8) -> nat {
    hunt_state(data, start, end).depth
}

/// The bounds of the sections of `data` between `start` and `end` tags, in
/// the order in which they close: each pair holds the position of a
/// section's first byte and the position of its closing tag.
pub open spec fn section_bounds(data: Seq<u8>, start: u8, end: u8) -> Seq<(int, int)> {
    hunt_state(data, start, end).found
}

/// The sections of `data` between `start` and `end` tags: the bytes strictly
/// between an outermost opening tag and the closing tag that matches it.
pub open spec fn sections(data: Seq<u8>, start: u8, end: u8) -> Seq<Seq<u8>> {
    section_bounds(data, start, end).map_values(|b: (int, int)| data.subrange(b.0, b.1))
}

/// The byte sequences that a vector of slices holds.
pub open spec fn slices_view(slices: Seq<&[u8]>) -> Seq<Seq<u8>> {
    slices.map_values(|s: &[u8]| s@)
}

/// Reading one more byte moves the search by one step.
pub proof fn lemma_hunt_state_step(data: Seq<u8>, i: int, start: u8, end: u8)
    requires
        0 <= i < data.len(),
    ensures
        hunt_state(data.take(i + 1), start, end) == hunt_state(data.take(i), start, end).step(
            category_at(data, i),
            i,
            start,
            end,
        ),
{
    assert(data.take(i + 1).drop_last() =~= data.take(i));
    lemma_category_of_prefix(data, i + 1, i);
}

/// Every section found lies inside the data, is not empty, and sections
/// follow one another without overlap; an open section begins inside the
/// data read so far, behind everything found.
pub proof fn lemma_hunt_state_bounds(data: Seq<u8>, start: u8, end: u8)
    ensures
        ({
            let h = hunt_state(data, start, end);
            &&& h.depth <= data.len()
            &&& h.depth > 0 ==> 0 < h.start <= data.len()
            &&& forall|k: int|
                0 <= k < h.found.len() ==> 0 < (#[trigger] h.found[k]).0 < h.found[k].1
                    < data.len()
            &&& forall|k: int, l: int|
                0 <= k < l < h.found.len() ==> (#[trigger] h.found[k]).1 < (
                #[trigger] h.found[l]).0
            &&& forall|k: int|
                0 <= k < h.found.len() && h.depth > 0 ==> (#[trigger] h.found[k]).1 < h.start
        }),
    decreases data.len(),
{
    if data.len() > 0 {
        lemma_hunt_state_bounds(data.drop_last(), start, end);
    }
}

/// Finds the sections of `data` bracketed by `start` and `end` tags.
///
/// Only outermost sections are returned: brackets nested inside a section
/// are part of its contents. A section with no contents is dropped, and so
/// is a section that the data ends without closing.
pub fn hunt_tags<'a>(data: &'a [u8], start: u8, end: u8) -> (found: Vec<&'a [u8]>)
    ensures
        slices_view(found@) == sections(data@, start, end),
        forall|k: int| 0 <= k < found@.len() ==> (#[trigger] found@[k])@.len() > 0,
{
    let mut inside: usize = 0;
    let mut found = Vec::<&[u8]>::new();
    let mut current_section_start: Option<usize> = None;
    let mut categorizer = Categorizer::new();
    assert(data@.take(0) =~= Seq::<u8>::empty());
    for i in 0..data.len()
        invariant
            categorizer@ == state_after(data@.take(i as int)),
            inside == hunt_state(data@.take(i as int), start, end).depth,
            inside > 0 ==> current_section_start == Some(
                hunt_state(data@.take(i as int), start, end).start as usize,
            ),
            found@.len() == hunt_state(data@.take(i as int), start, end).found.len(),
            forall|k: int|
                0 <= k < found@.len() ==> (#[trigger] found@[k])@ == data@.subrange(
                    hunt_state(data@.take(i as int), start, end).found[k].0,
                    hunt_state(data@.take(i as int), start, end).found[k].1,
                ),
            forall|k: int| 0 <= k < found@.len() ==> (#[trigger] found@[k])@.len() > 0,
    {
        let byte = categorizer.feed(data[i]);
        proof {
            lemma_state_after_step(data@, i as int);
            lemma_hunt_state_step(data@, i as int, start, end);
            lemma_hunt_state_bounds(data@.take(i as int), start, end);
            lemma_hunt_state_bounds(data@.take(i as int + 1), start, end);
        }
        if byte == CategorizedByte::Tag(start) {
            if inside == 0 {
                current_section_start = Some(i + 1);
            }
            inside += 1;
        }
        if byte == CategorizedByte::Tag(end) && inside > 0 {
            inside -= 1;
            if inside == 0 {
                let real_current_section_start = current_section_start.unwrap();
                if real_current_section_start < i {
                    found.push(&data[real_current_section_start..i]);
                }
                current_section_start = None;
            }
        }
    }
    proof {
        assert(data@.take(data@.len() as int) =~= data@);
        assert(slices_view(found@) =~= sections(data@, start, end));
    }
    found
}

/// The payload bytes of `data`, in order.
pub open spec fn numbers(data: Seq<u8>) -> Seq<u8>
    decreases data.len(),
{
    if data.len() == 0 {
        Seq::empty()
    } else if category_at(data, data.len() - 1) is Number {
        numbers(data.drop_last()).push(data.last())
    } else {
        numbers(data.drop_last())
    }
}

/// The payload of a prefix is a prefix of the payload.
pub proof fn lemma_numbers_of_prefix(data: Seq<u8>, n: int)
    requires
        0 <= n <= data.len(),
    ensures
        numbers(data.take(n)).len() <= numbers(data).len(),
        numbers(data.take(n)) == numbers(data).take(numbers(data.take(n)).len() as int),
    decreases data.len(),
{
    if n == data.len() {
        assert(data.take(n) =~= data);
        assert(numbers(data) =~= numbers(data).take(numbers(data).len() as int));
    } else {
        lemma_numbers_of_prefix(data.drop_last(), n);
        assert(data.drop_last().take(n) =~= data.take(n));
        let part = numbers(data.take(n));
        assert(part =~= numbers(data).take(part.len() as int));
    }
}

/// Reading one more byte adds it to the payload if it is a payload byte.
pub proof fn lemma_numbers_step(data: Seq<u8>, i: int)
    requires
        0 <= i < data.len(),
    ensures
        numbers(data.take(i + 1)) == if category_at(data, i) is Number {
            numbers(data.take(i)).push(data[i])
        } else {
            numbers(data.take(i))
        },
{
    assert(data.take(i + 1).drop_last() =~= data.take(i));
    lemma_category_of_prefix(data, i + 1, i);
}

/// What `hunt_numbers` collects: all payload bytes of `data`, or with a
/// limit the first `max_count` of them, fewer if there are no more.
pub open spec fn numbers_up_to(data: Seq<u8>, max_count: Option<usize>) -> Seq<u8> {
    match max_count {
        None => numbers(data),
        Some(limit) => if limit <= numbers(data).len() {
            numbers(data).take(limit as int)
        } else {
            numbers(data)
        },
    }
}

/// Collects the payload bytes of `data`, stopping once `max_count` of them
/// are collected if a limit is given.
pub fn hunt_numbers(data: &[u8], max_count: Option<usize>) -> (output: Vec<u8>)
    ensures
        output@ == numbers_up_to(data@, max_count),
{
    let mut output = Vec::new();
    let mut categorizer = Categorizer::new();
    assert(data@.take(0) =~= Seq::<u8>::empty());
    for i in 0..data.len()
        invariant
            categorizer@ == state_after(data@.take(i as int)),
            output@ == numbers(data@.take(i as int)),
            max_count matches Some(limit) ==> output@.len() <= limit && (i > 0 ==> output@.len()
                < limit),
    {
        let byte = categorizer.feed(data[i]);
        proof {
            lemma_state_after_step(data@, i as int);
            lemma_numbers_step(data@, i as int);
        }
        match byte {
            CategorizedByte::Number(x) => output.push(x),
            _ => {},
        }
        if let Some(some_max_count) = max_count {
            if output.len() >= some_max_count {
                proof {
                    lemma_numbers_of_prefix(data@, i as int + 1);
                }
                return output;
            }
        }
    }
    proof {
        assert(data@.take(data@.len() as int) =~= data@);
    }
    output
}

} // verus!
