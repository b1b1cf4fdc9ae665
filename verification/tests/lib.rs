use rrtk_rsb::error;
use rrtk_rsb::tags;
use rrtk_rsb::tags_u8;
use rrtk_rsb::{hunt_tags, read_file, Node};

fn header() -> Vec<u8> {
    let mut file = b"rrtkstrmbldr".to_vec();
    file.extend([1u8, 0, 0, 0]);
    file
}

fn push_tags(file: &mut Vec<u8>, tags: &[i8]) {
    for tag in tags {
        file.push(*tag as u8);
    }
}

#[test]
fn hunt_tags_() {
    let data = vec![
        1u8,
        100,
        2,
        3,
        101,
        tags_u8::SKIP_1,
        100,
        tags_u8::SKIP_8,
        100,
        1,
        2,
        3,
        4,
        5,
        6,
        101,
        //SKIP_8 tag ends here
        4,
        100,
        5,
        6,
        7,
        101,
        8,
        tags_u8::SKIP_U8,
        2,
        100,
        4,
        101,
        100,
        //SKIP_U8 tag ends here
        8,
        9,
        101,
        5,
        tags_u8::SKIP_U16,
        3u16.to_le_bytes()[0],
        3u16.to_le_bytes()[1],
        100,
        2,
        101,
        3,
        100,
        10,
        //SKIP_U16 tag ends here
        11,
        101,
        6,
    ];
    let found = hunt_tags(&data, 100, 101);
    assert_eq!(found, vec![&[2, 3][..], &[5, 6, 7][..]]);
}

#[test]
fn read_file_layout_broken() {
    let file = b"rrtkstrmbldrvvv";
    assert_eq!(read_file(&file.into()), Err(error::ParseFile::LayoutBroken));
}

#[test]
fn read_file_magic_number_error() {
    let file = b"badmagicnumsvvvv";
    assert_eq!(read_file(&file.into()), Err(error::ParseFile::MagicNumbers));
}

#[test]
fn read_file_version_error() {
    let mut file = b"rrtkstrmbldr".to_vec();
    file.extend([u8::MAX; 4]);
    assert_eq!(file.len(), 16);
    assert_eq!(read_file(&file), Err(error::ParseFile::Version));
}

#[test]
fn read_file_no_node_section() {
    let file = header();
    assert_eq!(file.len(), 16);
    assert_eq!(read_file(&file).unwrap(), vec![]);
}

#[test]
fn read_file_two_empty_node_sections() {
    let mut file = header();
    push_tags(
        &mut file,
        &[
            tags::NODE_SECTION_START,
            tags::NODE_SECTION_END,
            tags::NODE_SECTION_START,
            tags::NODE_SECTION_END,
        ],
    );
    assert_eq!(file.len(), 20);
    assert_eq!(read_file(&file).unwrap(), vec![]);
}

#[test]
fn read_file_empty() {
    let mut file = header();
    push_tags(&mut file, &[tags::NODE_SECTION_START, tags::NODE_SECTION_END]);
    assert_eq!(file.len(), 18);
    assert_eq!(read_file(&file).unwrap(), vec![]);
}

#[test]
fn read_file_one_node() {
    let mut file = header();
    push_tags(
        &mut file,
        &[tags::NODE_SECTION_START, tags::NODE_START, tags::NODE_ID, tags::SKIP_2],
    );
    file.extend(4u16.to_le_bytes());
    push_tags(&mut file, &[tags::COORDINATES, tags::SKIP_16]);
    file.extend(0.0f64.to_le_bytes());
    file.extend(0.0f64.to_le_bytes());
    push_tags(
        &mut file,
        &[
            tags::NODE_INPUT_LIST_START,
            tags::NODE_INPUT_LIST_END,
            tags::NODE_END,
            tags::NODE_SECTION_END,
        ],
    );
    assert_eq!(file.len(), 44);
    assert_eq!(
        read_file(&file).unwrap(),
        vec![Node {
            id: 4,
            x: 0.0f64.to_bits(),
            y: 0.0f64.to_bits(),
            inputs: vec![],
        }]
    );
}

#[test]
fn read_file_two_nodes() {
    let mut file = header();
    push_tags(
        &mut file,
        &[tags::NODE_SECTION_START, tags::NODE_START, tags::NODE_ID, tags::SKIP_2],
    );
    file.extend(5u16.to_le_bytes());
    push_tags(&mut file, &[tags::COORDINATES, tags::SKIP_16]);
    file.extend(0.0f64.to_le_bytes());
    file.extend(0.0f64.to_le_bytes());
    push_tags(
        &mut file,
        &[
            tags::NODE_INPUT_LIST_START,
            tags::NODE_INPUT_LIST_END,
            tags::NODE_END,
            tags::NODE_START,
            tags::NODE_ID,
            tags::SKIP_2,
        ],
    );
    file.extend(4u16.to_le_bytes());
    push_tags(&mut file, &[tags::COORDINATES, tags::SKIP_16]);
    file.extend(0.0f64.to_le_bytes());
    file.extend(0.0f64.to_le_bytes());
    push_tags(&mut file, &[tags::NODE_INPUT_LIST_START, tags::SKIP_U8]);
    file.push(1u8);
    file.extend(0u16.to_le_bytes());
    push_tags(
        &mut file,
        &[tags::NODE_INPUT_LIST_END, tags::NODE_END, tags::NODE_SECTION_END],
    );
    assert_eq!(file.len(), 74);
    assert_eq!(
        read_file(&file).unwrap(),
        vec![
            Node {
                id: 5,
                x: 0.0f64.to_bits(),
                y: 0.0f64.to_bits(),
                inputs: vec![],
            },
            Node {
                id: 4,
                x: 0.0f64.to_bits(),
                y: 0.0f64.to_bits(),
                inputs: vec![],
            }
        ]
    );
}
