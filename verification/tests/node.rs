use rrtk_rsb::error::parse_file::parse_node::{ParseCoordinates, ParseInputs, ParseNodeID};
use rrtk_rsb::error::parse_file::ParseNode;
use rrtk_rsb::node::{
    build_node, find_and_parse_coordinates, find_and_parse_inputs, find_and_parse_node_id,
    parse_node, parse_nodes, push_bytes,
};
use rrtk_rsb::tags_u8::{
    COORDINATES, NODE_END, NODE_ID, NODE_INPUT_LIST_END, NODE_INPUT_LIST_START, NODE_START,
    SKIP_1, SKIP_16, SKIP_2, SKIP_4, SKIP_8, SKIP_U16, SKIP_U8,
};
use rrtk_rsb::Node;

fn record(id: u16, x: f64, y: f64, inputs: &[u16]) -> Vec<u8> {
    let mut bytes = vec![NODE_ID, SKIP_2];
    bytes.extend(id.to_le_bytes());
    bytes.extend([COORDINATES, SKIP_16]);
    bytes.extend(x.to_le_bytes());
    bytes.extend(y.to_le_bytes());
    bytes.push(NODE_INPUT_LIST_START);
    for input in inputs {
        bytes.push(SKIP_2);
        bytes.extend(input.to_le_bytes());
    }
    bytes.push(NODE_INPUT_LIST_END);
    bytes
}

#[test]
fn node_id_is_read_low_byte_first() {
    assert_eq!(find_and_parse_node_id(&[NODE_ID, SKIP_2, 0x34, 0x12]), Ok(0x1234));
}

#[test]
fn node_id_is_found_behind_other_fields() {
    assert_eq!(find_and_parse_node_id(&[7, SKIP_1, NODE_ID, 9, NODE_ID, SKIP_2, 4, 0]), Ok(4));
}

#[test]
fn node_id_takes_the_first_two_payload_bytes_behind_the_tag() {
    assert_eq!(
        find_and_parse_node_id(&[NODE_ID, SKIP_1, 1, 9, SKIP_4, 2, 3, 4, 5]),
        Ok(0x0201)
    );
}

#[test]
fn node_id_not_found() {
    assert_eq!(find_and_parse_node_id(&[]), Err(ParseNodeID::NotFound));
    assert_eq!(find_and_parse_node_id(&[SKIP_2, NODE_ID, NODE_ID]), Err(ParseNodeID::NotFound));
}

#[test]
fn node_id_incorrect_length() {
    assert_eq!(find_and_parse_node_id(&[NODE_ID]), Err(ParseNodeID::IncorrectLength));
    assert_eq!(find_and_parse_node_id(&[NODE_ID, SKIP_2, 4]), Err(ParseNodeID::IncorrectLength));
    assert_eq!(find_and_parse_node_id(&[NODE_ID, SKIP_1, 4, 5]), Err(ParseNodeID::IncorrectLength));
}

#[test]
fn coordinates_are_read_x_then_y() {
    let mut data = vec![COORDINATES, SKIP_16];
    data.extend(1.5f64.to_le_bytes());
    data.extend((-2.25f64).to_le_bytes());
    assert_eq!(
        find_and_parse_coordinates(&data),
        Ok((1.5f64.to_bits(), (-2.25f64).to_bits()))
    );
}

#[test]
fn coordinates_may_come_in_two_escapes() {
    let mut data = vec![COORDINATES, SKIP_8];
    data.extend(3.0f64.to_le_bytes());
    data.push(SKIP_8);
    data.extend(4.0f64.to_le_bytes());
    assert_eq!(find_and_parse_coordinates(&data), Ok((3.0f64.to_bits(), 4.0f64.to_bits())));
}

#[test]
fn coordinates_not_found() {
    assert_eq!(find_and_parse_coordinates(&[NODE_ID, SKIP_2, 3, 3]), Err(ParseCoordinates::NotFound));
}

#[test]
fn coordinates_incorrect_length() {
    let mut data = vec![COORDINATES, SKIP_8];
    data.extend(1.0f64.to_le_bytes());
    data.extend([SKIP_4, 0, 0, 0, 0, SKIP_2, 0, 0, SKIP_1, 0]);
    assert_eq!(find_and_parse_coordinates(&data), Err(ParseCoordinates::IncorrectLength));
    assert_eq!(find_and_parse_coordinates(&[COORDINATES]), Err(ParseCoordinates::IncorrectLength));
}

#[test]
fn inputs_without_a_list_are_empty() {
    assert_eq!(find_and_parse_inputs(&[NODE_ID, SKIP_2, 1, 0]), Ok(vec![]));
    assert_eq!(find_and_parse_inputs(&[]), Ok(vec![]));
}

#[test]
fn inputs_of_an_empty_list_are_empty() {
    assert_eq!(find_and_parse_inputs(&[NODE_INPUT_LIST_START, NODE_INPUT_LIST_END]), Ok(vec![]));
}

#[test]
fn inputs_keep_their_order() {
    let data = [
        NODE_INPUT_LIST_START,
        SKIP_2,
        1,
        0,
        SKIP_2,
        1,
        2,
        SKIP_2,
        0,
        0,
        NODE_INPUT_LIST_END,
    ];
    assert_eq!(find_and_parse_inputs(&data), Ok(vec![1, 513, 0]));
}

#[test]
fn inputs_may_share_an_escape() {
    let data = [NODE_INPUT_LIST_START, SKIP_U8, 2, 7, 0, 8, 0, NODE_INPUT_LIST_END];
    assert_eq!(find_and_parse_inputs(&data), Ok(vec![7, 8]));
    let data = [NODE_INPUT_LIST_START, SKIP_U16, 1, 0, 7, 0, 8, 0, NODE_INPUT_LIST_END];
    assert_eq!(find_and_parse_inputs(&data), Ok(vec![7, 8]));
}

#[test]
fn inputs_behind_an_escape_that_swallows_the_closing_tag() {
    let data = [NODE_INPUT_LIST_START, SKIP_U8, 1, 7, 0, NODE_INPUT_LIST_END];
    assert_eq!(find_and_parse_inputs(&data), Ok(vec![]));
}

#[test]
fn inputs_that_look_like_tags() {
    let data = [
        NODE_INPUT_LIST_START,
        SKIP_2,
        NODE_INPUT_LIST_END,
        NODE_INPUT_LIST_START,
        NODE_INPUT_LIST_END,
    ];
    assert_eq!(find_and_parse_inputs(&data), Ok(vec![0x04fc]));
}

#[test]
fn inputs_multiple_input_sections() {
    let data = [
        NODE_INPUT_LIST_START,
        SKIP_2,
        1,
        0,
        NODE_INPUT_LIST_END,
        NODE_INPUT_LIST_START,
        SKIP_2,
        2,
        0,
        NODE_INPUT_LIST_END,
    ];
    assert_eq!(find_and_parse_inputs(&data), Err(ParseInputs::MultipleInputSections));
}

#[test]
fn inputs_layout_broken() {
    let data = [NODE_INPUT_LIST_START, SKIP_1, 1, NODE_INPUT_LIST_END];
    assert_eq!(find_and_parse_inputs(&data), Err(ParseInputs::LayoutBroken));
    let data = [NODE_INPUT_LIST_START, SKIP_2, 1, 0, SKIP_1, 2, NODE_INPUT_LIST_END];
    assert_eq!(find_and_parse_inputs(&data), Err(ParseInputs::LayoutBroken));
}

#[test]
fn parse_node_reads_all_fields() {
    assert_eq!(
        parse_node(&record(0x0102, 1.5, -0.0, &[3, 0xfffe])),
        Ok(Node {
            id: 0x0102,
            x: 1.5f64.to_bits(),
            y: (-0.0f64).to_bits(),
            inputs: vec![3, 0xfffe],
        })
    );
}

#[test]
fn parse_node_reads_fields_in_any_order() {
    let mut data = vec![NODE_INPUT_LIST_START, SKIP_2, 9, 0, NODE_INPUT_LIST_END];
    data.extend([COORDINATES, SKIP_16]);
    data.extend(8.0f64.to_le_bytes());
    data.extend(16.0f64.to_le_bytes());
    data.extend([NODE_ID, SKIP_2, 5, 0]);
    assert_eq!(
        parse_node(&data),
        Ok(Node { id: 5, x: 8.0f64.to_bits(), y: 16.0f64.to_bits(), inputs: vec![9] })
    );
}

#[test]
fn parse_node_reports_the_first_field_that_fails() {
    assert_eq!(parse_node(&[]), Err(ParseNode::ParseNodeID(ParseNodeID::NotFound)));
    assert_eq!(
        parse_node(&[NODE_ID, SKIP_1, 0]),
        Err(ParseNode::ParseNodeID(ParseNodeID::IncorrectLength))
    );
    assert_eq!(
        parse_node(&[NODE_ID, SKIP_2, 1, 0, NODE_INPUT_LIST_START, SKIP_1, 0, NODE_INPUT_LIST_END]),
        Err(ParseNode::ParseCoordinates(ParseCoordinates::NotFound))
    );
    assert_eq!(
        parse_node(&[NODE_ID, SKIP_2, 1, 0, COORDINATES, SKIP_8, 0, 0, 0, 0, 0, 0, 0, 0]),
        Err(ParseNode::ParseCoordinates(ParseCoordinates::IncorrectLength))
    );
    let mut broken_inputs = record(1, 0.0, 0.0, &[]);
    broken_inputs.extend([NODE_INPUT_LIST_START, SKIP_1, 0, NODE_INPUT_LIST_END]);
    assert_eq!(
        parse_node(&broken_inputs),
        Err(ParseNode::ParseInputs(ParseInputs::LayoutBroken))
    );
    let mut two_lists = record(1, 0.0, 0.0, &[2]);
    two_lists.extend([NODE_INPUT_LIST_START, SKIP_2, 0, 0, NODE_INPUT_LIST_END]);
    assert_eq!(
        parse_node(&two_lists),
        Err(ParseNode::ParseInputs(ParseInputs::MultipleInputSections))
    );
}

#[test]
fn parse_nodes_keeps_the_order_of_the_records() {
    let mut data = vec![NODE_START];
    data.extend(record(2, 1.0, 2.0, &[1]));
    data.extend([NODE_END, NODE_START]);
    data.extend(record(1, 3.0, 4.0, &[]));
    data.push(NODE_END);
    assert_eq!(
        parse_nodes(&data),
        Ok(vec![
            Node { id: 2, x: 1.0f64.to_bits(), y: 2.0f64.to_bits(), inputs: vec![1] },
            Node { id: 1, x: 3.0f64.to_bits(), y: 4.0f64.to_bits(), inputs: vec![] },
        ])
    );
}

#[test]
fn parse_nodes_of_nothing() {
    assert_eq!(parse_nodes(&[]), Ok(vec![]));
    assert_eq!(parse_nodes(&[NODE_START, NODE_END]), Ok(vec![]));
}

#[test]
fn parse_nodes_stops_at_the_first_broken_record() {
    let mut data = vec![NODE_START];
    data.extend(record(2, 1.0, 2.0, &[]));
    data.extend([NODE_END, NODE_START, COORDINATES, NODE_END, NODE_START, NODE_ID, NODE_END]);
    assert_eq!(parse_nodes(&data), Err(ParseNode::ParseNodeID(ParseNodeID::NotFound)));
}

#[test]
fn build_node_writes_the_canonical_form() {
    let node = Node { id: 0x0102, x: 1.5f64.to_bits(), y: 2.5f64.to_bits(), inputs: vec![7, 0x0809] };
    let mut output = vec![0xaa];
    build_node(&node, &mut output);
    let mut expected = vec![0xaa, NODE_START];
    expected.extend(record(0x0102, 1.5, 2.5, &[7, 0x0809]));
    expected.push(NODE_END);
    assert_eq!(output, expected);
    assert_eq!(output.len(), 1 + 26 + 3 * 2);
}

#[test]
fn build_node_then_parse_node() {
    let node = Node {
        id: 0xfe02,
        x: f64::NAN.to_bits(),
        y: u64::from_le_bytes([0, 1, 2, 3, 4, 0xfc, 0xfe, 0xff]),
        inputs: vec![0x0402, 0xfcfe, 0x8185],
    };
    let mut output = Vec::new();
    build_node(&node, &mut output);
    assert_eq!(parse_node(&output[1..output.len() - 1]), Ok(node));
}

#[test]
fn push_bytes_appends() {
    let mut output = vec![1u8, 2];
    push_bytes(&mut output, &[3, 4, 5]);
    push_bytes(&mut output, &[]);
    assert_eq!(output, vec![1u8, 2, 3, 4, 5]);
}
