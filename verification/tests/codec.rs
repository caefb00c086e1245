use commonplace::content::{Block, Inline, ListItem, Mark};
use commonplace::id::ZettelId;
use commonplace::record::{DeserializeError, ZettelRecord, CURRENT_ZETTEL_FORMAT_VERSION};

fn rich_record() -> ZettelRecord {
    ZettelRecord {
        title: String::from("A note with a title, héllo ☃"),
        content: vec![
            Block::Heading {
                level: 2,
                inlines: vec![Inline::Text {
                    text: String::from("Overview"),
                    marks: vec![Mark::Bold, Mark::Highlight],
                }],
            },
            Block::Paragraph {
                inlines: vec![
                    Inline::Text { text: String::from("plain text"), marks: vec![] },
                    Inline::Link {
                        text: String::from("a link"),
                        href: String::from("https://example.org/x"),
                        marks: vec![Mark::Italic],
                    },
                ],
            },
            Block::Divider,
            Block::Image { src: String::from("/static/pic.png") },
            Block::List {
                items: vec![
                    ListItem {
                        blocks: vec![Block::Paragraph {
                            inlines: vec![Inline::Text {
                                text: String::from("nested"),
                                marks: vec![Mark::Strikethrough],
                            }],
                        }],
                    },
                    ListItem {
                        blocks: vec![Block::List {
                            items: vec![ListItem {
                                blocks: vec![Block::Paragraph {
                                    inlines: vec![Inline::Text {
                                        text: String::from("deeper"),
                                        marks: vec![],
                                    }],
                                }],
                            }],
                        }],
                    },
                ],
            },
        ],
        mentions: vec![ZettelId(120210704233224), ZettelId(7)],
    }
}

#[test]
fn round_trip_empty_record() {
    let r = ZettelRecord::new();
    let bytes = r.serialize();
    let back = ZettelRecord::deserialize(&bytes).unwrap();
    assert_eq!(back, r);
}

#[test]
fn round_trip_rich_record() {
    let r = rich_record();
    let bytes = r.serialize();
    let back = ZettelRecord::deserialize(&bytes).unwrap();
    assert_eq!(back, r);
}

#[test]
fn empty_record_envelope_is_exact() {
    // Version 2 little-endian, then three zero-length varints:
    // empty title, empty content, no mentions.
    assert_eq!(CURRENT_ZETTEL_FORMAT_VERSION, 2);
    assert_eq!(ZettelRecord::new().serialize(), vec![2u8, 0, 0, 0, 0]);
}

#[test]
fn version_gate_rejects_other_versions() {
    // A valid body behind a wrong version tag fails without being read.
    let mut bytes = rich_record().serialize();
    bytes[0] = 3;
    assert!(matches!(
        ZettelRecord::deserialize(&bytes),
        Err(DeserializeError::WrongVersion)
    ));
    let mut bytes2 = rich_record().serialize();
    bytes2[1] = 1;
    assert!(matches!(
        ZettelRecord::deserialize(&bytes2),
        Err(DeserializeError::WrongVersion)
    ));
    // Whatever follows the tag does not matter.
    assert!(matches!(
        ZettelRecord::deserialize(&[9u8, 9, 1, 2, 3]),
        Err(DeserializeError::WrongVersion)
    ));
}

#[test]
fn truncated_or_garbage_bytes_are_malformed() {
    assert!(matches!(
        ZettelRecord::deserialize(&[]),
        Err(DeserializeError::Malformed)
    ));
    assert!(matches!(
        ZettelRecord::deserialize(&[2u8]),
        Err(DeserializeError::Malformed)
    ));
    // Right version, but the body is not a record encoding.
    assert!(matches!(
        ZettelRecord::deserialize(&[2u8, 0, 255, 255, 255]),
        Err(DeserializeError::Malformed)
    ));
    // Right version, valid record, then trailing bytes.
    let mut bytes = ZettelRecord::new().serialize();
    bytes.push(0);
    assert!(matches!(
        ZettelRecord::deserialize(&bytes),
        Err(DeserializeError::Malformed)
    ));
}

#[test]
fn title_survives_with_multibyte_characters() {
    let mut r = ZettelRecord::new();
    r.title = String::from("日本語 és ASCII");
    let back = ZettelRecord::deserialize(&r.serialize()).unwrap();
    assert_eq!(back.title, "日本語 és ASCII");
}

#[test]
fn clone_preserves_record() {
    let r = rich_record();
    let c = r.clone();
    assert_eq!(c, r);
    assert_eq!(c.serialize(), r.serialize());
}
