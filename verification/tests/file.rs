use rrtk_rsb::error::parse_file::parse_node::{ParseCoordinates, ParseInputs, ParseNodeID};
use rrtk_rsb::error::parse_file::ParseNode;
use rrtk_rsb::error::ParseFile;
use rrtk_rsb::tags_u8::{
    COORDINATES, NODE_END, NODE_ID, NODE_INPUT_LIST_END, NODE_INPUT_LIST_START,
    NODE_SECTION_END, NODE_SECTION_START, NODE_START, SKIP_16, SKIP_2, SKIP_U8,
};
use rrtk_rsb::{build_file, read_file, Node, FILE_START, MAJOR, MINOR, PATCH, PRE};

fn with_version(version: [u8; 4]) -> Vec<u8> {
    let mut file = b"rrtkstrmbldr".to_vec();
    file.extend(version);
    file
}

fn sample_graph() -> Vec<Node> {
    vec![
        Node { id: 0, x: 0.0f64.to_bits(), y: (-1.0f64).to_bits(), inputs: vec![] },
        Node {
            id: 0x0201,
            x: 1e300f64.to_bits(),
            y: f64::NEG_INFINITY.to_bits(),
            inputs: vec![0, 0x0201, 0xfffe],
        },
        Node {
            id: 0xfffe,
            x: u64::from_le_bytes([1, 0xff, 2, 0xfe, 4, 0xfc, 0, 3]),
            y: f64::NAN.to_bits(),
            inputs: vec![0x0104, 0xfc04, 0x8680, 0x0201, 0],
        },
    ]
}

#[test]
fn file_start_is_magic_and_version() {
    assert_eq!(&FILE_START[..12], b"rrtkstrmbldr");
    assert_eq!(&FILE_START[12..], &[MAJOR, MINOR, PATCH, PRE]);
    assert_eq!((MAJOR, MINOR, PATCH, PRE), (1, 1, 0, 0));
}

#[test]
fn build_file_of_no_nodes() {
    let mut expected = with_version([1, 1, 0, 0]);
    expected.extend([NODE_SECTION_START, NODE_SECTION_END]);
    assert_eq!(build_file(&vec![]), expected);
    assert_eq!(expected.len(), 18);
}

#[test]
fn build_file_writes_the_canonical_form() {
    let nodes = vec![
        Node { id: 5, x: 0.0f64.to_bits(), y: 0.0f64.to_bits(), inputs: vec![] },
        Node { id: 0x0104, x: 1.5f64.to_bits(), y: (-2.0f64).to_bits(), inputs: vec![5, 0x0203] },
    ];
    let mut expected = with_version([1, 1, 0, 0]);
    expected.extend([NODE_SECTION_START, NODE_START, NODE_ID, SKIP_2, 5, 0, COORDINATES, SKIP_16]);
    expected.extend([0u8; 16]);
    expected.extend([NODE_INPUT_LIST_START, NODE_INPUT_LIST_END, NODE_END]);
    expected.extend([NODE_START, NODE_ID, SKIP_2, 4, 1, COORDINATES, SKIP_16]);
    expected.extend(1.5f64.to_le_bytes());
    expected.extend((-2.0f64).to_le_bytes());
    expected.extend([NODE_INPUT_LIST_START, SKIP_2, 5, 0, SKIP_2, 3, 2, NODE_INPUT_LIST_END]);
    expected.extend([NODE_END, NODE_SECTION_END]);
    let built = build_file(&nodes);
    assert_eq!(built, expected);
    assert_eq!(built.len(), 18 + 26 * 2 + 3 * 2);
}

#[test]
fn round_trip_of_no_nodes() {
    assert_eq!(read_file(&build_file(&vec![])), Ok(vec![]));
}

#[test]
fn round_trip_keeps_nodes_values_and_order() {
    let graph = sample_graph();
    assert_eq!(read_file(&build_file(&graph)), Ok(graph));
}

#[test]
fn round_trip_of_every_byte_value_as_payload() {
    let mut graph = Vec::new();
    for byte in 0..=255u8 {
        graph.push(Node {
            id: u16::from_le_bytes([byte, byte]),
            x: u64::from_le_bytes([byte; 8]),
            y: u64::from_le_bytes([byte, 0, byte, 1, byte, 2, byte, 0xff]),
            inputs: vec![u16::from_le_bytes([byte, 0]), u16::from_le_bytes([0xfe, byte])],
        });
    }
    assert_eq!(read_file(&build_file(&graph)), Ok(graph));
}

#[test]
fn round_trip_of_many_inputs() {
    let graph = vec![Node {
        id: 1,
        x: 2.0f64.to_bits(),
        y: 3.0f64.to_bits(),
        inputs: (0..=u16::MAX).collect(),
    }];
    let file = build_file(&graph);
    assert_eq!(file.len(), 18 + 26 + 3 * 65536);
    assert_eq!(read_file(&file), Ok(graph));
}

#[test]
fn shorter_than_a_header_is_layout_broken() {
    for length in 0..16 {
        assert_eq!(read_file(&FILE_START[..length].to_vec()), Err(ParseFile::LayoutBroken));
        assert_eq!(read_file(&vec![b'x'; length]), Err(ParseFile::LayoutBroken));
    }
}

#[test]
fn wrong_magic_is_magic_numbers_whatever_follows() {
    for position in 0..12 {
        let mut file = build_file(&sample_graph());
        file[position] ^= 1;
        assert_eq!(read_file(&file), Err(ParseFile::MagicNumbers));
        file.truncate(16);
        assert_eq!(read_file(&file), Err(ParseFile::MagicNumbers));
    }
    let mut file = b"badmagicnums".to_vec();
    file.extend([u8::MAX; 4]);
    assert_eq!(read_file(&file), Err(ParseFile::MagicNumbers));
}

#[test]
fn each_version_component_is_checked() {
    assert_eq!(read_file(&with_version([2, 0, 0, 0])), Err(ParseFile::Version));
    assert_eq!(read_file(&with_version([0, 2, 0, 0])), Err(ParseFile::Version));
    assert_eq!(read_file(&with_version([0, 0, 1, 0])), Err(ParseFile::Version));
    assert_eq!(read_file(&with_version([0, 0, 0, 1])), Err(ParseFile::Version));
    assert_eq!(read_file(&with_version([1, 1, 0, 255])), Err(ParseFile::Version));
    assert_eq!(read_file(&with_version([MAJOR + 1, 0, 0, 0])), Err(ParseFile::Version));
    assert_eq!(read_file(&with_version([0, MINOR + 1, 0, 0])), Err(ParseFile::Version));
    assert_eq!(read_file(&with_version([0, 0, PATCH + 1, 0])), Err(ParseFile::Version));
    assert_eq!(read_file(&with_version([0, 0, 0, PRE + 1])), Err(ParseFile::Version));
}

#[test]
fn supported_versions_decode_past_the_header() {
    assert_eq!(read_file(&with_version([1, 0, 0, 0])), Ok(vec![]));
    assert_eq!(read_file(&with_version([0, 0, 0, 0])), Ok(vec![]));
    assert_eq!(read_file(&with_version([0, 1, 0, 0])), Ok(vec![]));
    assert_eq!(read_file(&with_version([1, 1, 0, 0])), Ok(vec![]));
    let mut file = build_file(&sample_graph());
    file[12] = 0;
    assert_eq!(read_file(&file), Ok(sample_graph()));
}

#[test]
fn version_is_checked_before_the_sections() {
    let mut file = with_version([1, 2, 0, 0]);
    file.extend([NODE_SECTION_START, 9, NODE_SECTION_END, NODE_SECTION_START, 9, NODE_SECTION_END]);
    assert_eq!(read_file(&file), Err(ParseFile::Version));
}

#[test]
fn one_node_with_an_older_header() {
    let mut file = with_version([0, 1, 0, 0]);
    file.extend([NODE_SECTION_START, NODE_START, NODE_ID, SKIP_2]);
    file.extend(4u16.to_le_bytes());
    file.extend([COORDINATES, SKIP_16]);
    file.extend(0.0f64.to_le_bytes());
    file.extend(0.0f64.to_le_bytes());
    file.extend([NODE_INPUT_LIST_START, NODE_INPUT_LIST_END, NODE_END, NODE_SECTION_END]);
    assert_eq!(file.len(), 44);
    assert_eq!(
        read_file(&file),
        Ok(vec![Node { id: 4, x: 0.0f64.to_bits(), y: 0.0f64.to_bits(), inputs: vec![] }])
    );
}

#[test]
fn two_nodes_of_which_the_second_has_one_input() {
    let mut file = with_version([0, 1, 0, 0]);
    file.extend([NODE_SECTION_START, NODE_START, NODE_ID, SKIP_2]);
    file.extend(0u16.to_le_bytes());
    file.extend([COORDINATES, SKIP_16]);
    file.extend(1.0f64.to_le_bytes());
    file.extend(2.0f64.to_le_bytes());
    file.extend([NODE_INPUT_LIST_START, NODE_INPUT_LIST_END, NODE_END]);
    file.extend([NODE_START, NODE_ID, SKIP_2]);
    file.extend(1u16.to_le_bytes());
    file.extend([COORDINATES, SKIP_16]);
    file.extend(3.0f64.to_le_bytes());
    file.extend(4.0f64.to_le_bytes());
    file.extend([NODE_INPUT_LIST_START, SKIP_U8, 0]);
    file.extend(0u16.to_le_bytes());
    file.extend([NODE_INPUT_LIST_END, NODE_END, NODE_SECTION_END]);
    assert_eq!(
        read_file(&file),
        Ok(vec![
            Node { id: 0, x: 1.0f64.to_bits(), y: 2.0f64.to_bits(), inputs: vec![] },
            Node { id: 1, x: 3.0f64.to_bits(), y: 4.0f64.to_bits(), inputs: vec![0] },
        ])
    );
}

#[test]
fn multiple_node_sections() {
    let mut file = with_version([1, 0, 0, 0]);
    file.extend([NODE_SECTION_START, 9, NODE_SECTION_END, NODE_SECTION_START, 9, NODE_SECTION_END]);
    assert_eq!(read_file(&file), Err(ParseFile::MultipleNodeSections));
}

#[test]
fn an_unclosed_node_section_holds_no_nodes() {
    let mut file = build_file(&sample_graph());
    file.pop();
    assert_eq!(read_file(&file), Ok(vec![]));
}

#[test]
fn a_broken_node_fails_the_file() {
    let mut file = with_version([1, 0, 0, 0]);
    file.extend([NODE_SECTION_START, NODE_START, COORDINATES, NODE_END, NODE_SECTION_END]);
    assert_eq!(
        read_file(&file),
        Err(ParseFile::ParseNode(ParseNode::ParseNodeID(ParseNodeID::NotFound)))
    );
    let mut file = with_version([1, 0, 0, 0]);
    file.extend([NODE_SECTION_START, NODE_START, NODE_ID, SKIP_2, 1, 0, NODE_END, NODE_SECTION_END]);
    assert_eq!(
        read_file(&file),
        Err(ParseFile::ParseNode(ParseNode::ParseCoordinates(ParseCoordinates::NotFound)))
    );
}

#[test]
fn the_first_broken_node_decides_the_error() {
    let good = Node { id: 1, x: 0, y: 0, inputs: vec![] };
    let mut file = build_file(&vec![good]);
    file.pop();
    file.extend([NODE_START, NODE_ID, SKIP_2, 2, 0, COORDINATES, SKIP_16]);
    file.extend([0u8; 16]);
    file.extend([NODE_INPUT_LIST_START, SKIP_2, 0, 0]);
    file.extend([NODE_INPUT_LIST_END, NODE_INPUT_LIST_START, 9, NODE_INPUT_LIST_END, NODE_END]);
    file.extend([NODE_START, NODE_END, NODE_START, 9, NODE_END, NODE_SECTION_END]);
    assert_eq!(
        read_file(&file),
        Err(ParseFile::ParseNode(ParseNode::ParseInputs(ParseInputs::MultipleInputSections)))
    );
}

#[test]
fn errors_wrap_the_error_below() {
    assert_eq!(
        ParseNode::from(ParseNodeID::NotFound),
        ParseNode::ParseNodeID(ParseNodeID::NotFound)
    );
    assert_eq!(
        ParseNode::from(ParseCoordinates::IncorrectLength),
        ParseNode::ParseCoordinates(ParseCoordinates::IncorrectLength)
    );
    assert_eq!(
        ParseNode::from(ParseInputs::LayoutBroken),
        ParseNode::ParseInputs(ParseInputs::LayoutBroken)
    );
    assert_eq!(
        ParseFile::from(ParseNode::from(ParseInputs::MultipleInputSections)),
        ParseFile::ParseNode(ParseNode::ParseInputs(ParseInputs::MultipleInputSections))
    );
}
