//! The file codec: the header, the node section, and the nodes in it.

use vstd::prelude::*;
use crate::error::parse_file::ParseNode;
use crate::error::ParseFile;
use crate::hunt::{hunt_tags, sections, slices_view};
use crate::node::{
    build_node, decode_nodes, encode_nodes, graph_view, parse_nodes, push_bytes, Node, NodeModel,
};
use crate::tags_u8;
use crate::{MAJOR, MINOR, PATCH, PRE};

verus! {

/// The header that this codec writes: the magic string `rrtkstrmbldr` and
/// the version of the format.
pub const FILE_START: [u8; 16] = [
    114,
    114,
    116,
    107,
    115,
    116,
    114,
    109,
    98,
    108,
    100,
    114,
    MAJOR,
    MINOR,
    PATCH,
    PRE,
];

/// The length of a header.
pub const HEADER_LEN: usize = 16;

/// The length of the magic string.
pub const MAGIC_LEN: usize = 12;

/// The magic string that every file begins with.
pub open spec fn magic() -> Seq<u8> {
    seq![114u8, 114, 116, 107, 115, 116, 114, 109, 98, 108, 100, 114]
}

/// The header that this codec writes.
pub open spec fn file_start() -> Seq<u8> {
    magic() + seq![MAJOR, MINOR, PATCH, PRE]
}

/// Whether `data`, at least a header long, begins with the magic string.
pub open spec fn has_magic(data: Seq<u8>) -> bool {
    data.take(12) == magic()
}

/// Whether no component of the version that the header of `data` declares
/// exceeds what this codec supports.
pub open spec fn version_supported(data: Seq<u8>) -> bool {
    data[12] <= MAJOR && data[13] <= MINOR && data[14] <= PATCH && data[15] <= PRE
}

/// The graph that a file holds, or why it holds none.
///
/// The checks come in a fixed order: the length of the header, the magic
/// string, the version, the number of node sections, and then the nodes in
/// the order of their records.
pub open spec fn decode_file(data: Seq<u8>) -> Result<Seq<NodeModel>, ParseFile> {
    if data.len() < 16 {
        Err(ParseFile::LayoutBroken)
    } else if !has_magic(data) {
        Err(ParseFile::MagicNumbers)
    } else if !version_supported(data) {
        Err(ParseFile::Version)
    } else {
        let node_sections = sections(
            data.skip(16),
            tags_u8::NODE_SECTION_START,
            tags_u8::NODE_SECTION_END,
        );
        if node_sections.len() > 1 {
            Err(ParseFile::MultipleNodeSections)
        } else if node_sections.len() == 0 {
            Ok(Seq::empty())
        } else {
            match decode_nodes(sections(node_sections[0], tags_u8::NODE_START, tags_u8::NODE_END)) {
                Ok(nodes) => Ok(nodes),
                Err(error) => Err(ParseFile::ParseNode(error)),
            }
        }
    }
}

/// The file that holds a graph: the header, then the nodes between the
/// node section tags.
pub open spec fn encode_file(nodes: Seq<NodeModel>) -> Seq<u8> {
    file_start() + seq![tags_u8::NODE_SECTION_START] + encode_nodes(nodes) + seq![
        tags_u8::NODE_SECTION_END,
    ]
}

/// The result of decoding, with the graph as its mathematical value.
pub open spec fn graph_result(decoded: Result<Vec<Node>, ParseFile>) -> Result<
    Seq<NodeModel>,
    ParseFile,
> {
    match decoded {
        Ok(nodes) => Ok(graph_view(nodes@)),
        Err(error) => Err(error),
    }
}

/// Whether decoding failed with `error`.
pub open spec fn fails_with(decoded: Result<Vec<Node>, ParseFile>, error: ParseFile) -> bool {
    decoded matches Err(found) && found == error
}

/// Whether `data` begins with the magic string.
fn starts_with_magic(data: &[u8]) -> (found: bool)
    requires
        data@.len() >= 12,
    ensures
        found == has_magic(data@),
{
    for i in 0..MAGIC_LEN
        invariant
            data@.len() >= 12,
            forall|j: int| 0 <= j < i ==> data@[j] == magic()[j],
    {
        if data[i] != FILE_START[i] {
            assert(data@.take(12)[i as int] != magic()[i as int]);
            return false;
        }
    }
    assert(data@.take(12) =~= magic());
    true
}

/// Decodes a file.
pub fn read_file(data: &Vec<u8>) -> (decoded: Result<Vec<Node>, ParseFile>)
    ensures
        graph_result(decoded) == decode_file(data@),
        data@.len() < 16 ==> fails_with(decoded, ParseFile::LayoutBroken),
        data@.len() >= 16 && !has_magic(data@) ==> fails_with(decoded, ParseFile::MagicNumbers),
        data@.len() >= 16 && has_magic(data@) ==> (fails_with(decoded, ParseFile::Version)
            <==> !version_supported(data@)),
        data@.len() >= 16 && has_magic(data@) && version_supported(data@) ==> !fails_with(
            decoded,
            ParseFile::LayoutBroken,
        ) && !fails_with(decoded, ParseFile::MagicNumbers),
{
    if data.len() < HEADER_LEN {
        return Err(ParseFile::LayoutBroken);
    }
    let data = data.as_slice();
    if !starts_with_magic(data) {
        return Err(ParseFile::MagicNumbers);
    }
    let major = data[12];
    if major > MAJOR {
        return Err(ParseFile::Version);
    }
    let minor = data[13];
    if minor > MINOR {
        return Err(ParseFile::Version);
    }
    let patch = data[14];
    if patch > PATCH {
        return Err(ParseFile::Version);
    }
    let pre = data[15];
    if pre > PRE {
        return Err(ParseFile::Version);
    }
    assert(data@.subrange(16, data@.len() as int) =~= data@.skip(16));
    let node_sections = hunt_tags(
        &data[16..data.len()],
        tags_u8::NODE_SECTION_START,
        tags_u8::NODE_SECTION_END,
    );
    if node_sections.len() > 1 {
        return Err(ParseFile::MultipleNodeSections);
    }
    if node_sections.len() == 0 {
        let empty = Vec::new();
        assert(graph_view(empty@) =~= Seq::<NodeModel>::empty());
        return Ok(empty);
    }
    assert(slices_view(node_sections@)[0] == node_sections@[0]@);
    let node_section = node_sections[0];
    match parse_nodes(node_section) {
        Ok(parsed) => Ok(parsed),
        Err(error) => Err(ParseFile::from(error)),
    }
}

/// How many bytes a file of `count` nodes without inputs takes: 18 for the
/// header and the node section tags, 26 for each node. Where that number
/// cannot be had, no estimate is made.
fn size_estimate(count: usize) -> (estimate: usize)
    ensures
        estimate == if 18 + 26 * count <= usize::MAX {
            18 + 26 * count
        } else {
            0
        },
{
    if count <= (usize::MAX - 18) / 26 {
        18 + 26 * count
    } else {
        0
    }
}

/// Encodes a graph as a file.
pub fn build_file(nodes: &Vec<Node>) -> (output: Vec<u8>)
    ensures
        output@ == encode_file(graph_view(nodes@)),
{
    let mut output = Vec::with_capacity(size_estimate(nodes.len()));
    push_bytes(&mut output, &FILE_START);
    output.push(tags_u8::NODE_SECTION_START);
    let ghost head = output@;
    let ghost graph = graph_view(nodes@);
    assert(head =~= file_start() + seq![tags_u8::NODE_SECTION_START]);
    assert(graph.take(0) =~= Seq::<NodeModel>::empty());
    assert(output@ =~= head + encode_nodes(graph.take(0)));
    for i in 0..nodes.len()
        invariant
            graph == graph_view(nodes@),
            output@ == head + encode_nodes(graph.take(i as int)),
    {
        build_node(&nodes[i], &mut output);
        proof {
            let next = graph.take(i as int + 1);
            assert(next.drop_last() =~= graph.take(i as int));
            assert(next.last() == nodes@[i as int]@);
            assert(output@ =~= head + encode_nodes(next));
        }
    }
    assert(graph.take(nodes@.len() as int) =~= graph);
    output.push(tags_u8::NODE_SECTION_END);
    assert(output@ =~= encode_file(graph));
    output
}

} // verus!
