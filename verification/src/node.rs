//! The node codec: one node record as tagged bytes, and back.

use vstd::prelude::*;
use crate::bytes::{
    bytes_to_u16, bytes_to_u64, u16_from_le, u16_le_bytes, u16_to_bytes, u64_from_le,
    u64_le_bytes, u64_to_bytes,
};
use crate::error::parse_file::parse_node::{ParseCoordinates, ParseInputs, ParseNodeID};
use crate::error::parse_file::ParseNode;
use crate::hunt::{first_tag, hunt_numbers, hunt_tag, hunt_tags, numbers, sections, slices_view};
use crate::tags_u8;

verus! {

/// One node of a graph.
///
/// The coordinates are held as the bit patterns of IEEE 754 binary64
/// numbers: the codec moves them between bytes and values and never does
/// arithmetic on them.
#[derive(Clone, Debug, PartialEq, Eq)]
pub struct Node {
    /// The node's identifier.
    pub id: u16,
    /// The bits of the node's horizontal coordinate.
    pub x: u64,
    /// The bits of the node's vertical coordinate.
    pub y: u64,
    /// The identifiers of the nodes this node takes input from, in order.
    pub inputs: Vec<u16>,
}

/// The mathematical value of a node.
pub struct NodeModel {
    pub id: u16,
    pub x: u64,
    pub y: u64,
    pub inputs: Seq<u16>,
}

impl View for Node {
    type V = NodeModel;

    open spec fn view(&self) -> NodeModel {
        NodeModel { id: self.id, x: self.x, y: self.y, inputs: self.inputs@ }
    }
}

/// The mathematical value of a graph: the values of its nodes, in order.
pub open spec fn graph_view(nodes: Seq<Node>) -> Seq<NodeModel> {
    nodes.map_values(|node: Node| node@)
}

/// The identifier that a node record holds: the 16-bit value of the first
/// two payload bytes from the first identifier tag on.
pub open spec fn node_id_of(data: Seq<u8>) -> Result<u16, ParseNodeID> {
    match first_tag(data, tags_u8::NODE_ID) {
        None => Err(ParseNodeID::NotFound),
        Some(i) => {
            let payload = numbers(data.skip(i));
            if payload.len() < 2 {
                Err(ParseNodeID::IncorrectLength)
            } else {
                Ok(u16_from_le(payload[0], payload[1]))
            }
        },
    }
}

/// The coordinates that a node record holds: the 64-bit values of the first
/// and of the second eight payload bytes from the first coordinates tag on.
pub open spec fn coordinates_of(data: Seq<u8>) -> Result<(u64, u64), ParseCoordinates> {
    match first_tag(data, tags_u8::COORDINATES) {
        None => Err(ParseCoordinates::NotFound),
        Some(i) => {
            let payload = numbers(data.skip(i));
            if payload.len() < 16 {
                Err(ParseCoordinates::IncorrectLength)
            } else {
                Ok((u64_from_le(payload.subrange(0, 8)), u64_from_le(payload.subrange(8, 16))))
            }
        },
    }
}

/// The 16-bit values of consecutive pairs of payload bytes.
pub open spec fn pairs_to_u16s(payload: Seq<u8>) -> Seq<u16> {
    Seq::new(
        (payload.len() / 2) as nat,
        |k: int| u16_from_le(payload[2 * k], payload[2 * k + 1]),
    )
}

/// The inputs that a node record holds: none if it has no input list, and
/// otherwise the 16-bit values of the payload of its one input list.
pub open spec fn inputs_of(data: Seq<u8>) -> Result<Seq<u16>, ParseInputs> {
    let lists = sections(data, tags_u8::NODE_INPUT_LIST_START, tags_u8::NODE_INPUT_LIST_END);
    if lists.len() == 0 {
        Ok(Seq::empty())
    } else if lists.len() != 1 {
        Err(ParseInputs::MultipleInputSections)
    } else if numbers(lists[0]).len() % 2 != 0 {
        Err(ParseInputs::LayoutBroken)
    } else {
        Ok(pairs_to_u16s(numbers(lists[0])))
    }
}

/// The node that a node record holds. The fields are read in the order
/// identifier, coordinates, inputs, and the first one that fails decides
/// the error.
pub open spec fn decode_node(data: Seq<u8>) -> Result<NodeModel, ParseNode> {
    match node_id_of(data) {
        Err(error) => Err(ParseNode::ParseNodeID(error)),
        Ok(id) => match coordinates_of(data) {
            Err(error) => Err(ParseNode::ParseCoordinates(error)),
            Ok((x, y)) => match inputs_of(data) {
                Err(error) => Err(ParseNode::ParseInputs(error)),
                Ok(inputs) => Ok(NodeModel { id, x, y, inputs }),
            },
        },
    }
}

/// The nodes that a sequence of node records holds, or the error of the
/// first record that fails.
pub open spec fn decode_nodes(blocks: Seq<Seq<u8>>) -> Result<Seq<NodeModel>, ParseNode>
    decreases blocks.len(),
{
    if blocks.len() == 0 {
        Ok(Seq::empty())
    } else {
        match decode_nodes(blocks.drop_last()) {
            Err(error) => Err(error),
            Ok(nodes) => match decode_node(blocks.last()) {
                Err(error) => Err(error),
                Ok(node) => Ok(nodes.push(node)),
            },
        }
    }
}

/// An error among the first records is the error of the whole sequence.
pub proof fn lemma_decode_nodes_error_stays(blocks: Seq<Seq<u8>>, n: int)
    requires
        0 <= n <= blocks.len(),
        decode_nodes(blocks.take(n)) is Err,
    ensures
        decode_nodes(blocks) == decode_nodes(blocks.take(n)),
    decreases blocks.len(),
{
    if n == blocks.len() {
        assert(blocks.take(n) =~= blocks);
    } else {
        assert(blocks.drop_last().take(n) =~= blocks.take(n));
        lemma_decode_nodes_error_stays(blocks.drop_last(), n);
    }
}

/// Decoding a sequence of records succeeds exactly when every record
/// decodes, and then gives one node for each record, in order.
pub proof fn lemma_decode_nodes_ok(blocks: Seq<Seq<u8>>)
    ensures
        decode_nodes(blocks) is Ok <==> forall|k: int|
            0 <= k < blocks.len() ==> (#[trigger] decode_node(blocks[k])) is Ok,
        decode_nodes(blocks) matches Ok(nodes) ==> nodes.len() == blocks.len() && forall|k: int|
            0 <= k < blocks.len() ==> #[trigger] decode_node(blocks[k]) == Ok::<
                NodeModel,
                ParseNode,
            >(nodes[k]),
    decreases blocks.len(),
{
    if blocks.len() > 0 {
        let shorter = blocks.drop_last();
        lemma_decode_nodes_ok(shorter);
        assert forall|k: int| 0 <= k < shorter.len() implies shorter[k] == blocks[k] by {}
        if decode_nodes(shorter) is Err {
            let k = choose|k: int|
                0 <= k < shorter.len() && !((#[trigger] decode_node(shorter[k])) is Ok);
            assert(!(decode_node(blocks[k]) is Ok));
        } else if decode_node(blocks.last()) is Err {
            assert(!(decode_node(blocks[blocks.len() - 1]) is Ok));
        }
    }
}

/// Where a record fails and all before it decode, decoding the sequence
/// fails with that record's error.
pub proof fn lemma_decode_nodes_first_error(blocks: Seq<Seq<u8>>, k: int)
    requires
        0 <= k < blocks.len(),
        decode_node(blocks[k]) is Err,
        forall|j: int| 0 <= j < k ==> (#[trigger] decode_node(blocks[j])) is Ok,
    ensures
        decode_nodes(blocks) == Err::<Seq<NodeModel>, ParseNode>(decode_node(blocks[k])->Err_0),
{
    let upto = blocks.take(k + 1);
    assert(upto.drop_last() =~= blocks.take(k));
    assert(upto.last() == blocks[k]);
    lemma_decode_nodes_ok(blocks.take(k));
    assert forall|j: int| 0 <= j < k implies (#[trigger] decode_node(blocks.take(k)[j])) is Ok by {
        assert(blocks.take(k)[j] == blocks[j]);
    }
    lemma_decode_nodes_error_stays(blocks, k + 1);
}

/// Reads a node's identifier from its record.
pub fn find_and_parse_node_id(data: &[u8]) -> (id: Result<u16, ParseNodeID>)
    ensures
        id == node_id_of(data@),
{
    let found = hunt_tag(data, tags_u8::NODE_ID);
    let found = match found {
        Some(x) => x,
        None => return Err(ParseNodeID::NotFound),
    };
    let found_numbers = hunt_numbers(found, Some(2));
    if found_numbers.len() != 2 {
        return Err(ParseNodeID::IncorrectLength);
    }
    Ok(bytes_to_u16(found_numbers.as_slice()))
}

/// Reads a node's coordinates from its record.
pub fn find_and_parse_coordinates(data: &[u8]) -> (coordinates: Result<
    (u64, u64),
    ParseCoordinates,
>)
    ensures
        coordinates == coordinates_of(data@),
{
    let found = hunt_tag(data, tags_u8::COORDINATES);
    let found = match found {
        Some(x) => x,
        None => return Err(ParseCoordinates::NotFound),
    };
    let found_numbers = hunt_numbers(found, Some(16));
    if found_numbers.len() != 16 {
        return Err(ParseCoordinates::IncorrectLength);
    }
    let found_numbers = found_numbers.as_slice();
    proof {
        let payload = numbers(found@);
        assert(found_numbers@.subrange(0, 8) =~= payload.subrange(0, 8));
        assert(found_numbers@.subrange(8, 16) =~= payload.subrange(8, 16));
    }
    Ok((bytes_to_u64(&found_numbers[0..8]), bytes_to_u64(&found_numbers[8..16])))
}

/// Reads a node's inputs from its record.
pub fn find_and_parse_inputs(data: &[u8]) -> (inputs: Result<Vec<u16>, ParseInputs>)
    ensures
        match inputs_of(data@) {
            Ok(ids) => inputs matches Ok(found) && found@ == ids,
            Err(error) => inputs matches Err(found) && found == error,
        },
{
    let input_section = hunt_tags(
        data,
        tags_u8::NODE_INPUT_LIST_START,
        tags_u8::NODE_INPUT_LIST_END,
    );
    if input_section.len() == 0 {
        return Ok(Vec::new());
    }
    if input_section.len() != 1 {
        return Err(ParseInputs::MultipleInputSections);
    }
    assert(slices_view(input_section@)[0] == input_section@[0]@);
    let input_section = input_section[0];
    let found_numbers = hunt_numbers(input_section, None);
    if found_numbers.len() % 2 != 0 {
        return Err(ParseInputs::LayoutBroken);
    }
    let mut inputs = Vec::<u16>::new();
    for i in 0..(found_numbers.len() / 2)
        invariant
            found_numbers@.len() % 2 == 0,
            inputs@ == pairs_to_u16s(found_numbers@).take(i as int),
    {
        inputs.push(bytes_to_u16(&[found_numbers[i * 2], found_numbers[i * 2 + 1]]));
        assert(inputs@ =~= pairs_to_u16s(found_numbers@).take(i as int + 1));
    }
    assert(inputs@ =~= pairs_to_u16s(found_numbers@));
    Ok(inputs)
}

/// Decodes one node from its record.
pub fn parse_node(data: &[u8]) -> (node: Result<Node, ParseNode>)
    ensures
        match decode_node(data@) {
            Ok(model) => node matches Ok(found) && found@ == model,
            Err(error) => node matches Err(found) && found == error,
        },
{
    let id = match find_and_parse_node_id(data) {
        Ok(id) => id,
        Err(error) => return Err(ParseNode::from(error)),
    };
    let (x, y) = match find_and_parse_coordinates(data) {
        Ok(coordinates) => coordinates,
        Err(error) => return Err(ParseNode::from(error)),
    };
    let inputs = match find_and_parse_inputs(data) {
        Ok(inputs) => inputs,
        Err(error) => return Err(ParseNode::from(error)),
    };
    Ok(Node { id: id, x: x, y: y, inputs: inputs })
}

/// Decodes the nodes of a node section, in the order of their records.
pub fn parse_nodes(data: &[u8]) -> (nodes: Result<Vec<Node>, ParseNode>)
    ensures
        match decode_nodes(sections(data@, tags_u8::NODE_START, tags_u8::NODE_END)) {
            Ok(models) => nodes matches Ok(found) && graph_view(found@) == models,
            Err(error) => nodes matches Err(found) && found == error,
        },
{
    let mut output = Vec::<Node>::new();
    let blocks = hunt_tags(data, tags_u8::NODE_START, tags_u8::NODE_END);
    let ghost records = slices_view(blocks@);
    assert(records.take(0) =~= Seq::<Seq<u8>>::empty());
    assert(graph_view(output@) =~= Seq::<NodeModel>::empty());
    for i in 0..blocks.len()
        invariant
            records == slices_view(blocks@),
            records == sections(data@, tags_u8::NODE_START, tags_u8::NODE_END),
            decode_nodes(records.take(i as int)) == Ok::<Seq<NodeModel>, ParseNode>(
                graph_view(output@),
            ),
    {
        proof {
            assert(records.take(i as int + 1).drop_last() =~= records.take(i as int));
            assert(records[i as int] == blocks@[i as int]@);
        }
        let ghost before = graph_view(output@);
        match parse_node(blocks[i]) {
            Ok(node) => {
                output.push(node);
                assert(graph_view(output@) =~= before.push(node@));
            },
            Err(error) => {
                proof {
                    lemma_decode_nodes_error_stays(records, i as int + 1);
                }
                return Err(error);
            },
        }
    }
    assert(records.take(blocks@.len() as int) =~= records);
    Ok(output)
}

/// A 16-bit value as it stands in a file: a two-byte escape and the value's
/// two bytes.
pub open spec fn escaped_u16(value: u16) -> Seq<u8> {
    seq![tags_u8::SKIP_2] + u16_le_bytes(value)
}

/// The contents of an input list: each input as an escaped 16-bit value.
pub open spec fn encode_inputs(inputs: Seq<u16>) -> Seq<u8>
    decreases inputs.len(),
{
    if inputs.len() == 0 {
        Seq::empty()
    } else {
        encode_inputs(inputs.drop_last()) + escaped_u16(inputs.last())
    }
}

/// The record of a node: what stands between its opening and closing tag.
/// The identifier tag and the escaped identifier; the coordinates tag, a
/// sixteen-byte escape and the two coordinates; the bracketed input list.
pub open spec fn node_record(node: NodeModel) -> Seq<u8> {
    seq![tags_u8::NODE_ID] + escaped_u16(node.id) + seq![tags_u8::COORDINATES, tags_u8::SKIP_16]
        + u64_le_bytes(node.x) + u64_le_bytes(node.y) + seq![tags_u8::NODE_INPUT_LIST_START]
        + encode_inputs(node.inputs) + seq![tags_u8::NODE_INPUT_LIST_END]
}

/// A node as it stands in a file: its record between the node tags.
pub open spec fn encode_node(node: NodeModel) -> Seq<u8> {
    seq![tags_u8::NODE_START] + node_record(node) + seq![tags_u8::NODE_END]
}

/// The contents of a node section: the nodes one after another.
pub open spec fn encode_nodes(nodes: Seq<NodeModel>) -> Seq<u8>
    decreases nodes.len(),
{
    if nodes.len() == 0 {
        Seq::empty()
    } else {
        encode_nodes(nodes.drop_last()) + encode_node(nodes.last())
    }
}

/// Appends `bytes` to `output`.
pub fn push_bytes(output: &mut Vec<u8>, bytes: &[u8])
    ensures
        final(output)@ == old(output)@ + bytes@,
{
    assert(output@ =~= old(output)@ + bytes@.take(0));
    for i in 0..bytes.len()
        invariant
            output@ == old(output)@ + bytes@.take(i as int),
    {
        output.push(bytes[i]);
        assert(output@ =~= old(output)@ + bytes@.take(i as int + 1));
    }
    assert(bytes@.take(bytes@.len() as int) =~= bytes@);
}

/// Appends one node, in its one canonical form, to `output`.
pub fn build_node(node: &Node, output: &mut Vec<u8>)
    ensures
        final(output)@ == old(output)@ + encode_node(node@),
{
    output.push(tags_u8::NODE_START);
    output.push(tags_u8::NODE_ID);
    output.push(tags_u8::SKIP_2);
    push_bytes(output, &u16_to_bytes(node.id));
    output.push(tags_u8::COORDINATES);
    output.push(tags_u8::SKIP_16);
    push_bytes(output, &u64_to_bytes(node.x));
    push_bytes(output, &u64_to_bytes(node.y));
    output.push(tags_u8::NODE_INPUT_LIST_START);
    let ghost head = output@;
    assert(head =~= old(output)@ + (seq![tags_u8::NODE_START] + (seq![tags_u8::NODE_ID]
        + escaped_u16(node.id) + seq![tags_u8::COORDINATES, tags_u8::SKIP_16] + u64_le_bytes(
        node.x,
    ) + u64_le_bytes(node.y) + seq![tags_u8::NODE_INPUT_LIST_START])));
    assert(node.inputs@.take(0) =~= Seq::<u16>::empty());
    assert(output@ =~= head + encode_inputs(node.inputs@.take(0)));
    for i in 0..node.inputs.len()
        invariant
            output@ == head + encode_inputs(node.inputs@.take(i as int)),
    {
        output.push(tags_u8::SKIP_2);
        push_bytes(output, &u16_to_bytes(node.inputs[i]));
        proof {
            let next = node.inputs@.take(i as int + 1);
            assert(next.drop_last() =~= node.inputs@.take(i as int));
            assert(output@ =~= head + encode_inputs(next));
        }
    }
    assert(node.inputs@.take(node.inputs@.len() as int) =~= node.inputs@);
    output.push(tags_u8::NODE_INPUT_LIST_END);
    output.push(tags_u8::NODE_END);
    assert(output@ =~= old(output)@ + encode_node(node@));
}

} // verus!
