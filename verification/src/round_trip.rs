//! Decoding what was encoded gives back the graph.

use vstd::prelude::*;
use crate::bytes::{lemma_u16_round_trip, lemma_u64_round_trip, u16_le_bytes, u64_le_bytes};
use crate::compose::{
    idle_after, lemma_bracket, lemma_bracket_tags, lemma_empty, lemma_first_tag_concat,
    lemma_fixed_escape, lemma_hunt_state_unchanged, lemma_idle_concat, lemma_numbers_concat,
    lemma_single_tag, lemma_tag_free_concat, tag_free,
};
use crate::error::parse_file::parse_node::{ParseCoordinates, ParseInputs, ParseNodeID};
use crate::error::parse_file::ParseNode;
use crate::error::ParseFile;
use crate::file::{decode_file, encode_file, magic};
use crate::hunt::{hunt_state, numbers, sections};
use crate::node::{
    coordinates_of, decode_node, decode_nodes, encode_inputs, encode_node, encode_nodes,
    escaped_u16, inputs_of, node_id_of, node_record, pairs_to_u16s, NodeModel,
};
use crate::scan::{is_tag_at, lemma_category_in_head};
use crate::tags_u8;

verus! {

/// The payload of an input list: the bytes of each input, low byte first.
pub open spec fn inputs_payload(inputs: Seq<u16>) -> Seq<u8>
    decreases inputs.len(),
{
    if inputs.len() == 0 {
        Seq::empty()
    } else {
        inputs_payload(inputs.drop_last()) + u16_le_bytes(inputs.last())
    }
}

/// Whether `tag` is one of the tags that stand inside a node record.
pub open spec fn is_field_tag(tag: u8) -> bool {
    tag == tags_u8::NODE_ID || tag == tags_u8::COORDINATES || tag == tags_u8::NODE_INPUT_LIST_START
        || tag == tags_u8::NODE_INPUT_LIST_END
}

/// Whether `tag` is one of the tags that bracket a node.
pub open spec fn is_node_tag(tag: u8) -> bool {
    tag == tags_u8::NODE_START || tag == tags_u8::NODE_END
}

/// An escaped 16-bit value is self-contained, holds no tag whatever the
/// value is, and has the value's two bytes as its payload.
pub proof fn lemma_escaped_u16(value: u16)
    ensures
        idle_after(escaped_u16(value)),
        numbers(escaped_u16(value)) == u16_le_bytes(value),
        forall|tag: u8| tag_free(escaped_u16(value), tag),
{
    lemma_fixed_escape(tags_u8::SKIP_2, u16_le_bytes(value));
}

/// Pairing up the payload of an input list gives the inputs.
pub proof fn lemma_inputs_payload(inputs: Seq<u16>)
    ensures
        inputs_payload(inputs).len() == 2 * inputs.len(),
        pairs_to_u16s(inputs_payload(inputs)) == inputs,
    decreases inputs.len(),
{
    if inputs.len() == 0 {
        assert(pairs_to_u16s(inputs_payload(inputs)) =~= inputs);
    } else {
        let shorter = inputs.drop_last();
        lemma_inputs_payload(shorter);
        lemma_u16_round_trip(inputs.last());
        let payload = inputs_payload(inputs);
        let paired = pairs_to_u16s(payload);
        assert(paired.len() == inputs.len());
        assert forall|k: int| 0 <= k < inputs.len() implies paired[k] == inputs[k] by {
            if k < shorter.len() {
                assert(pairs_to_u16s(inputs_payload(shorter))[k] == shorter[k]);
                assert(payload[2 * k] == inputs_payload(shorter)[2 * k]);
                assert(payload[2 * k + 1] == inputs_payload(shorter)[2 * k + 1]);
            } else {
                assert(payload[2 * k] == u16_le_bytes(inputs.last())[0]);
                assert(payload[2 * k + 1] == u16_le_bytes(inputs.last())[1]);
            }
        }
        assert(paired =~= inputs);
    }
}

/// The contents of an input list are self-contained, hold no tag whatever
/// the inputs are, and have the inputs' bytes as their payload.
pub proof fn lemma_encode_inputs(inputs: Seq<u16>)
    ensures
        idle_after(encode_inputs(inputs)),
        numbers(encode_inputs(inputs)) == inputs_payload(inputs),
        forall|tag: u8| tag_free(encode_inputs(inputs), tag),
        encode_inputs(inputs).len() == 3 * inputs.len(),
    decreases inputs.len(),
{
    if inputs.len() == 0 {
        assert forall|tag: u8| tag_free(encode_inputs(inputs), tag) by {
            lemma_empty(tag);
        }
    } else {
        let head = encode_inputs(inputs.drop_last());
        let tail = escaped_u16(inputs.last());
        lemma_encode_inputs(inputs.drop_last());
        lemma_escaped_u16(inputs.last());
        lemma_idle_concat(head, tail);
        lemma_numbers_concat(head, tail);
        assert forall|tag: u8| tag_free(encode_inputs(inputs), tag) by {
            lemma_tag_free_concat(head, tail, tag);
        }
    }
}

/// The part of a node record before the input list: the identifier and the
/// coordinates.
pub open spec fn record_fields(node: NodeModel) -> Seq<u8> {
    seq![tags_u8::NODE_ID] + escaped_u16(node.id) + coordinates_field(node)
}

/// The coordinates of a node as they stand in its record.
pub open spec fn coordinates_field(node: NodeModel) -> Seq<u8> {
    seq![tags_u8::COORDINATES] + (seq![tags_u8::SKIP_16] + (u64_le_bytes(node.x) + u64_le_bytes(
        node.y,
    )))
}

/// The input list of a node as it stands in its record.
pub open spec fn inputs_field(node: NodeModel) -> Seq<u8> {
    seq![tags_u8::NODE_INPUT_LIST_START] + encode_inputs(node.inputs).push(
        tags_u8::NODE_INPUT_LIST_END,
    )
}

/// The coordinates field is self-contained, has the coordinates' bytes as
/// its payload, and holds no tag but the one it begins with.
pub proof fn lemma_coordinates_field(node: NodeModel)
    ensures
        idle_after(coordinates_field(node)),
        numbers(coordinates_field(node)) == u64_le_bytes(node.x) + u64_le_bytes(node.y),
        is_tag_at(coordinates_field(node), 0, tags_u8::COORDINATES),
        forall|tag: u8| tag != tags_u8::COORDINATES ==> tag_free(coordinates_field(node), tag),
{
    let tag_part = seq![tags_u8::COORDINATES];
    let run = u64_le_bytes(node.x) + u64_le_bytes(node.y);
    let escape = seq![tags_u8::SKIP_16] + run;
    lemma_single_tag(tags_u8::COORDINATES);
    lemma_fixed_escape(tags_u8::SKIP_16, run);
    lemma_idle_concat(tag_part, escape);
    lemma_numbers_concat(tag_part, escape);
    lemma_category_in_head(tag_part, escape, 0);
    assert(numbers(tag_part) + numbers(escape) =~= run);
    assert forall|tag: u8| tag != tags_u8::COORDINATES implies tag_free(
        coordinates_field(node),
        tag,
    ) by {
        lemma_tag_free_concat(tag_part, escape, tag);
    }
}

/// The identifier field is self-contained, has the identifier's bytes as
/// its payload, and holds no tag but the one it begins with.
pub proof fn lemma_id_field(node: NodeModel)
    ensures
        idle_after(seq![tags_u8::NODE_ID] + escaped_u16(node.id)),
        numbers(seq![tags_u8::NODE_ID] + escaped_u16(node.id)) == u16_le_bytes(node.id),
        is_tag_at(seq![tags_u8::NODE_ID] + escaped_u16(node.id), 0, tags_u8::NODE_ID),
        forall|tag: u8|
            tag != tags_u8::NODE_ID ==> tag_free(
                seq![tags_u8::NODE_ID] + escaped_u16(node.id),
                tag,
            ),
{
    let tag_part = seq![tags_u8::NODE_ID];
    let escape = escaped_u16(node.id);
    lemma_single_tag(tags_u8::NODE_ID);
    lemma_escaped_u16(node.id);
    lemma_idle_concat(tag_part, escape);
    lemma_numbers_concat(tag_part, escape);
    lemma_category_in_head(tag_part, escape, 0);
    assert(numbers(tag_part) + numbers(escape) =~= u16_le_bytes(node.id));
    assert forall|tag: u8| tag != tags_u8::NODE_ID implies tag_free(tag_part + escape, tag) by {
        lemma_tag_free_concat(tag_part, escape, tag);
    }
}

/// The fields before the input list are self-contained, have the bytes of
/// the identifier and of the coordinates as their payload, and hold no tag
/// but the identifier's and the coordinates'.
pub proof fn lemma_record_fields(node: NodeModel)
    ensures
        idle_after(record_fields(node)),
        numbers(record_fields(node)) == u16_le_bytes(node.id) + (u64_le_bytes(node.x)
            + u64_le_bytes(node.y)),
        forall|tag: u8|
            tag != tags_u8::NODE_ID && tag != tags_u8::COORDINATES ==> tag_free(
                record_fields(node),
                tag,
            ),
{
    let id_part = seq![tags_u8::NODE_ID] + escaped_u16(node.id);
    let rest = coordinates_field(node);
    lemma_id_field(node);
    lemma_coordinates_field(node);
    lemma_idle_concat(id_part, rest);
    lemma_numbers_concat(id_part, rest);
    assert forall|tag: u8|
        tag != tags_u8::NODE_ID && tag != tags_u8::COORDINATES implies tag_free(
        record_fields(node),
        tag,
    ) by {
        lemma_tag_free_concat(id_part, rest, tag);
    }
}

/// The input list field is self-contained, has the inputs' bytes as its
/// payload, and holds no tag but its brackets.
pub proof fn lemma_inputs_field(node: NodeModel)
    ensures
        idle_after(inputs_field(node)),
        numbers(inputs_field(node)) == inputs_payload(node.inputs),
        forall|tag: u8|
            tag != tags_u8::NODE_INPUT_LIST_START && tag != tags_u8::NODE_INPUT_LIST_END
                ==> tag_free(inputs_field(node), tag),
{
    lemma_encode_inputs(node.inputs);
    assert forall|tag: u8|
        tag != tags_u8::NODE_INPUT_LIST_START && tag != tags_u8::NODE_INPUT_LIST_END
            implies tag_free(inputs_field(node), tag) by {
        lemma_bracket_tags(
            encode_inputs(node.inputs),
            tags_u8::NODE_INPUT_LIST_START,
            tags_u8::NODE_INPUT_LIST_END,
            tag,
        );
    }
    lemma_bracket_tags(
        encode_inputs(node.inputs),
        tags_u8::NODE_INPUT_LIST_START,
        tags_u8::NODE_INPUT_LIST_END,
        tags_u8::NODE_ID,
    );
}

/// A node record is its fields before the input list, then the input list.
pub proof fn lemma_node_record_parts(node: NodeModel)
    ensures
        node_record(node) == record_fields(node) + inputs_field(node),
        node_record(node) == record_fields(node).push(tags_u8::NODE_INPUT_LIST_START)
            + encode_inputs(node.inputs).push(tags_u8::NODE_INPUT_LIST_END),
        node_record(node).len() > 0,
{
    assert(node_record(node) =~= record_fields(node) + inputs_field(node));
    assert(node_record(node) =~= record_fields(node).push(tags_u8::NODE_INPUT_LIST_START)
        + encode_inputs(node.inputs).push(tags_u8::NODE_INPUT_LIST_END));
}

/// A node record is self-contained and holds no tag but those of its
/// fields, whatever the node's values are.
pub proof fn lemma_node_record_tags(node: NodeModel)
    ensures
        idle_after(node_record(node)),
        numbers(node_record(node)) == u16_le_bytes(node.id) + (u64_le_bytes(node.x)
            + u64_le_bytes(node.y)) + inputs_payload(node.inputs),
        forall|tag: u8| !is_field_tag(tag) ==> #[trigger] tag_free(node_record(node), tag),
{
    lemma_node_record_parts(node);
    lemma_record_fields(node);
    lemma_inputs_field(node);
    lemma_idle_concat(record_fields(node), inputs_field(node));
    lemma_numbers_concat(record_fields(node), inputs_field(node));
    assert forall|tag: u8| !is_field_tag(tag) implies tag_free(node_record(node), tag) by {
        lemma_tag_free_concat(record_fields(node), inputs_field(node), tag);
    }
}

/// The identifier read from a node's record is the node's identifier.
pub proof fn lemma_node_id_round_trip(node: NodeModel)
    ensures
        node_id_of(node_record(node)) == Ok::<u16, ParseNodeID>(node.id),
{
    let record = node_record(node);
    let id_part = seq![tags_u8::NODE_ID] + escaped_u16(node.id);
    let rest = coordinates_field(node) + inputs_field(node);
    assert(record =~= id_part + rest);
    lemma_id_field(node);
    lemma_category_in_head(id_part, rest, 0);
    lemma_empty(tags_u8::NODE_ID);
    assert(Seq::<u8>::empty() + record =~= record);
    lemma_first_tag_concat(Seq::<u8>::empty(), record, tags_u8::NODE_ID);
    assert(record.skip(0) =~= record);
    lemma_node_record_tags(node);
    lemma_u16_round_trip(node.id);
    let payload = numbers(record);
    assert(payload[0] == u16_le_bytes(node.id)[0]);
    assert(payload[1] == u16_le_bytes(node.id)[1]);
}

/// The coordinates read from a node's record are the node's coordinates.
pub proof fn lemma_coordinates_round_trip(node: NodeModel)
    ensures
        coordinates_of(node_record(node)) == Ok::<(u64, u64), ParseCoordinates>((node.x, node.y)),
{
    let record = node_record(node);
    let id_part = seq![tags_u8::NODE_ID] + escaped_u16(node.id);
    let rest = coordinates_field(node) + inputs_field(node);
    assert(record =~= id_part + rest);
    lemma_id_field(node);
    lemma_coordinates_field(node);
    lemma_inputs_field(node);
    lemma_category_in_head(coordinates_field(node), inputs_field(node), 0);
    lemma_first_tag_concat(id_part, rest, tags_u8::COORDINATES);
    assert(record.skip(id_part.len() as int) =~= rest);
    lemma_numbers_concat(coordinates_field(node), inputs_field(node));
    lemma_u64_round_trip(node.x);
    lemma_u64_round_trip(node.y);
    let payload = numbers(rest);
    assert(payload.subrange(0, 8) =~= u64_le_bytes(node.x));
    assert(payload.subrange(8, 16) =~= u64_le_bytes(node.y));
}

/// The inputs read from a node's record are the node's inputs.
pub proof fn lemma_inputs_round_trip(node: NodeModel)
    ensures
        inputs_of(node_record(node)) == Ok::<Seq<u16>, ParseInputs>(node.inputs),
{
    let record = node_record(node);
    let fields = record_fields(node);
    let list = encode_inputs(node.inputs);
    let start = tags_u8::NODE_INPUT_LIST_START;
    let end = tags_u8::NODE_INPUT_LIST_END;
    lemma_node_record_parts(node);
    lemma_record_fields(node);
    lemma_encode_inputs(node.inputs);
    lemma_inputs_payload(node.inputs);
    lemma_empty(start);
    assert(Seq::<u8>::empty() + fields =~= fields);
    lemma_hunt_state_unchanged(Seq::<u8>::empty(), fields, start, end);
    lemma_bracket(fields, list, start, end);
    assert(sections(fields, start, end) =~= Seq::<Seq<u8>>::empty());
    if node.inputs.len() == 0 {
        assert(node.inputs =~= Seq::<u16>::empty());
    } else {
        assert(sections(record, start, end)[0] == list);
    }
}

/// Decoding a node's record gives the node.
pub proof fn lemma_node_round_trip(node: NodeModel)
    ensures
        decode_node(node_record(node)) == Ok::<NodeModel, ParseNode>(node),
{
    lemma_node_id_round_trip(node);
    lemma_coordinates_round_trip(node);
    lemma_inputs_round_trip(node);
}

/// The records of the nodes of a graph, in order.
pub open spec fn node_records(nodes: Seq<NodeModel>) -> Seq<Seq<u8>> {
    nodes.map_values(|node: NodeModel| node_record(node))
}

/// The contents of a node section are self-contained, hold no tag but
/// those of nodes and their fields, and their sections between node tags
/// are the records of the nodes, in order.
pub proof fn lemma_encode_nodes(nodes: Seq<NodeModel>)
    ensures
        idle_after(encode_nodes(nodes)),
        forall|tag: u8|
            !is_field_tag(tag) && !is_node_tag(tag) ==> #[trigger] tag_free(
                encode_nodes(nodes),
                tag,
            ),
        hunt_state(encode_nodes(nodes), tags_u8::NODE_START, tags_u8::NODE_END).depth == 0,
        sections(encode_nodes(nodes), tags_u8::NODE_START, tags_u8::NODE_END) == node_records(
            nodes,
        ),
        nodes.len() > 0 ==> encode_nodes(nodes).len() > 0,
    decreases nodes.len(),
{
    let start = tags_u8::NODE_START;
    let end = tags_u8::NODE_END;
    if nodes.len() == 0 {
        assert forall|tag: u8| tag_free(encode_nodes(nodes), tag) by {
            lemma_empty(tag);
        }
        assert(sections(encode_nodes(nodes), start, end) =~= node_records(nodes));
    } else {
        let head = encode_nodes(nodes.drop_last());
        let record = node_record(nodes.last());
        lemma_encode_nodes(nodes.drop_last());
        lemma_node_record_tags(nodes.last());
        lemma_node_record_parts(nodes.last());
        assert(encode_nodes(nodes) =~= head.push(start) + record.push(end));
        assert(encode_node(nodes.last()) =~= seq![start] + record.push(end));
        lemma_bracket(head, record, start, end);
        assert forall|tag: u8| !is_field_tag(tag) && !is_node_tag(tag) implies tag_free(
            encode_nodes(nodes),
            tag,
        ) by {
            lemma_bracket_tags(record, start, end, tag);
            lemma_tag_free_concat(head, encode_node(nodes.last()), tag);
        }
        assert(node_records(nodes) =~= node_records(nodes.drop_last()).push(record));
    }
}

/// Decoding the records of the nodes of a graph gives the graph.
pub proof fn lemma_node_records_round_trip(nodes: Seq<NodeModel>)
    ensures
        decode_nodes(node_records(nodes)) == Ok::<Seq<NodeModel>, ParseNode>(nodes),
    decreases nodes.len(),
{
    if nodes.len() == 0 {
        assert(nodes =~= Seq::<NodeModel>::empty());
    } else {
        lemma_node_records_round_trip(nodes.drop_last());
        lemma_node_round_trip(nodes.last());
        assert(node_records(nodes).drop_last() =~= node_records(nodes.drop_last()));
        assert(nodes.drop_last().push(nodes.last()) =~= nodes);
    }
}

/// Decoding the file that encodes a graph gives back the graph: the same
/// nodes in the same order, each with its identifier, its coordinates and
/// its inputs in their order.
pub proof fn lemma_round_trip(nodes: Seq<NodeModel>)
    ensures
        decode_file(encode_file(nodes)) == Ok::<Seq<NodeModel>, ParseFile>(nodes),
{
    let start = tags_u8::NODE_SECTION_START;
    let end = tags_u8::NODE_SECTION_END;
    let file = encode_file(nodes);
    let body = encode_nodes(nodes);
    assert(file.take(12) =~= magic());
    assert(file.skip(16) =~= Seq::<u8>::empty().push(start) + body.push(end));
    lemma_encode_nodes(nodes);
    lemma_empty(start);
    lemma_bracket(Seq::<u8>::empty(), body, start, end);
    assert(sections(Seq::<u8>::empty(), start, end) =~= Seq::<Seq<u8>>::empty());
    lemma_node_records_round_trip(nodes);
    if nodes.len() == 0 {
        assert(nodes =~= Seq::<NodeModel>::empty());
    } else {
        assert(sections(file.skip(16), start, end)[0] == body);
    }
}

} // verus!
