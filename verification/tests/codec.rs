//! Round-trip and error-path tests for the container codec.

use s7::entity::{Chunk, DataChunk, Entity, HeaderAttibute, HeaderChunk, Object, PathObject};
use s7::serialization::read::read;

fn sample_entity() -> Entity {
    Entity {
        version: String::from("1.0.0"),
        header_chunk: HeaderChunk {
            creation_date: Some(123456789),
            width: 640,
            height: 480,
            other_attributes: vec![HeaderAttibute {
                key: String::from("NOTE"),
                val: vec![1, 2, 3, 4, 5],
            }],
        },
        data_chunks: vec![DataChunk {
            objects: vec![
                Object::Path(PathObject {
                    color: [10, 20, 30],
                    points: vec![[0, 0], [639, 0], [639, 479], [0, 479]],
                }),
                Object::Path(PathObject {
                    color: [200, 0, 0],
                    points: vec![[5, 5]],
                }),
            ],
        }],
        other_chunks: vec![Chunk {
            code: String::from("XTRA"),
            data: vec![0xde, 0xad, 0xbe, 0xef],
        }],
    }
}

#[test]
fn round_trip_reproduces_entity() {
    let entity = sample_entity();
    let bytes = s7::serialization::write::write(&entity);
    let back = read(&bytes).expect("written container must parse");
    assert_eq!(back.version, "1.0.0");
    assert_eq!(back.header_chunk.width, 640);
    assert_eq!(back.header_chunk.height, 480);
    assert_eq!(back.header_chunk.creation_date, Some(123456789));
    assert_eq!(back.header_chunk.other_attributes.len(), 1);
    assert_eq!(back.header_chunk.other_attributes[0].key, "NOTE");
    assert_eq!(back.header_chunk.other_attributes[0].val, vec![1, 2, 3, 4, 5]);
    assert_eq!(back.data_chunks.len(), 1);
    assert_eq!(back.data_chunks[0].objects.len(), 2);
    match &back.data_chunks[0].objects[0] {
        Object::Path(p) => {
            assert_eq!(p.color, [10, 20, 30]);
            assert_eq!(p.points, vec![[0, 0], [639, 0], [639, 479], [0, 479]]);
        }
    }
    match &back.data_chunks[0].objects[1] {
        Object::Path(p) => {
            assert_eq!(p.color, [200, 0, 0]);
            assert_eq!(p.points, vec![[5, 5]]);
        }
    }
    assert_eq!(back.other_chunks.len(), 1);
    assert_eq!(back.other_chunks[0].code, "XTRA");
    assert_eq!(back.other_chunks[0].data, vec![0xde, 0xad, 0xbe, 0xef]);
}

#[test]
fn written_bytes_match_wire_format_exactly() {
    let entity = Entity {
        version: String::from("1.0.0"),
        header_chunk: HeaderChunk {
            creation_date: None,
            width: 1,
            height: 2,
            other_attributes: vec![],
        },
        data_chunks: vec![DataChunk {
            objects: vec![Object::Path(PathObject {
                color: [1, 2, 3],
                points: vec![[4, 5]],
            })],
        }],
        other_chunks: vec![],
    };
    let bytes = s7::serialization::write::write(&entity);
    let mut expected: Vec<u8> = Vec::new();
    // magic, version, NUL
    expected.extend_from_slice(&[0x0d, b'S', b'7', 0x0d]);
    expected.extend_from_slice(b"1.0.0\0");
    // HEAD chunk: SIZE (16 bytes), WIDT (10), HEIG (10) -> payload 36, chunk 44
    expected.extend_from_slice(&[0, 0, 0, 44]);
    expected.extend_from_slice(b"HEAD");
    expected.extend_from_slice(&[0, 0, 0, 16]);
    expected.extend_from_slice(b"SIZE");
    expected.extend_from_slice(&82u64.to_be_bytes());
    expected.extend_from_slice(&[0, 0, 0, 10]);
    expected.extend_from_slice(b"WIDT");
    expected.extend_from_slice(&[0, 1]);
    expected.extend_from_slice(&[0, 0, 0, 10]);
    expected.extend_from_slice(b"HEIG");
    expected.extend_from_slice(&[0, 2]);
    // DATA chunk: one path record of 12 bytes -> chunk 20
    expected.extend_from_slice(&[0, 0, 0, 20]);
    expected.extend_from_slice(b"DATA");
    expected.extend_from_slice(&[0, 0, 0, 12]);
    expected.push(b'P');
    expected.extend_from_slice(&[1, 2, 3]);
    expected.extend_from_slice(&[0, 4, 0, 5]);
    // FEND chunk
    expected.extend_from_slice(&[0, 0, 0, 8]);
    expected.extend_from_slice(b"FEND");
    assert_eq!(bytes.len(), 82);
    assert_eq!(bytes, expected);
}

#[test]
fn size_attribute_carries_total_length() {
    let entity = sample_entity();
    let bytes = s7::serialization::write::write(&entity);
    // The size placeholder value sits right after the first attribute header.
    let version_len = 5;
    let offset = 4 + version_len + 1 + 8 + 8;
    let mut size_bytes = [0u8; 8];
    size_bytes.copy_from_slice(&bytes[offset..offset + 8]);
    assert_eq!(u64::from_be_bytes(size_bytes), bytes.len() as u64);
}

#[test]
fn unknown_chunks_survive_read_write_round_trip() {
    // A container with an unrecognized chunk between DATA and FEND.
    let entity = sample_entity();
    let bytes = s7::serialization::write::write(&entity);
    let back = read(&bytes).expect("container must parse");
    let again = s7::serialization::write::write(&back);
    let back2 = read(&again).expect("rewritten container must parse");
    assert_eq!(back2.other_chunks.len(), 1);
    assert_eq!(back2.other_chunks[0].code, "XTRA");
    assert_eq!(back2.other_chunks[0].data, vec![0xde, 0xad, 0xbe, 0xef]);
    // The unknown chunk's record appears byte for byte in the output.
    let mut record: Vec<u8> = Vec::new();
    record.extend_from_slice(&[0, 0, 0, 12]);
    record.extend_from_slice(b"XTRA");
    record.extend_from_slice(&[0xde, 0xad, 0xbe, 0xef]);
    assert!(again.windows(record.len()).any(|wnd| wnd == record.as_slice()));
}

#[test]
fn truncation_inside_version_is_rejected() {
    let entity = sample_entity();
    let bytes = s7::serialization::write::write(&entity);
    let truncated: Vec<u8> = bytes[..5].to_vec();
    assert!(read(&truncated).is_err());
}

#[test]
fn bad_magic_is_rejected() {
    let entity = sample_entity();
    let mut bytes = s7::serialization::write::write(&entity);
    bytes[1] = b'X';
    assert!(read(&bytes).is_err());
}

#[test]
fn missing_version_terminator_is_rejected() {
    // Magic followed by version bytes that never reach a NUL.
    let bytes: Vec<u8> = vec![0x0d, b'S', b'7', 0x0d, b'1', b'.', b'0'];
    assert!(read(&bytes).is_err());
}

#[test]
fn truncated_chunk_header_is_rejected() {
    let mut bytes: Vec<u8> = vec![0x0d, b'S', b'7', 0x0d, b'1', 0];
    bytes.extend_from_slice(&[0, 0]);
    assert!(read(&bytes).is_err());
}

#[test]
fn chunk_size_out_of_range_is_rejected() {
    let mut bytes: Vec<u8> = vec![0x0d, b'S', b'7', 0x0d, b'1', 0];
    // A HEAD chunk claiming more bytes than the container holds.
    bytes.extend_from_slice(&[0, 0, 1, 0]);
    bytes.extend_from_slice(b"HEAD");
    assert!(read(&bytes).is_err());
}

#[test]
fn chunk_size_below_header_is_rejected() {
    let mut bytes: Vec<u8> = vec![0x0d, b'S', b'7', 0x0d, b'1', 0];
    // A chunk size below the eight header bytes is inconsistent.
    bytes.extend_from_slice(&[0, 0, 0, 4]);
    bytes.extend_from_slice(b"HEAD");
    assert!(read(&bytes).is_err());
}

#[test]
fn first_chunk_must_be_header() {
    let mut bytes: Vec<u8> = vec![0x0d, b'S', b'7', 0x0d, b'1', 0];
    bytes.extend_from_slice(&[0, 0, 0, 8]);
    bytes.extend_from_slice(b"DATA");
    assert!(read(&bytes).is_err());
}

#[test]
fn unknown_object_type_is_rejected() {
    let mut bytes: Vec<u8> = vec![0x0d, b'S', b'7', 0x0d, b'1', 0];
    // Empty HEAD, then a DATA chunk holding an object of type 'Q'.
    bytes.extend_from_slice(&[0, 0, 0, 8]);
    bytes.extend_from_slice(b"HEAD");
    bytes.extend_from_slice(&[0, 0, 0, 20]);
    bytes.extend_from_slice(b"DATA");
    bytes.extend_from_slice(&[0, 0, 0, 12]);
    bytes.push(b'Q');
    bytes.extend_from_slice(&[1, 2, 3, 0, 4, 0, 5]);
    assert!(read(&bytes).is_err());
}

#[test]
fn misaligned_point_bytes_are_rejected() {
    let mut bytes: Vec<u8> = vec![0x0d, b'S', b'7', 0x0d, b'1', 0];
    bytes.extend_from_slice(&[0, 0, 0, 8]);
    bytes.extend_from_slice(b"HEAD");
    // A path record whose body is not a whole number of points.
    bytes.extend_from_slice(&[0, 0, 0, 18]);
    bytes.extend_from_slice(b"DATA");
    bytes.extend_from_slice(&[0, 0, 0, 10]);
    bytes.push(b'P');
    bytes.extend_from_slice(&[1, 2, 3, 9, 9]);
    assert!(read(&bytes).is_err());
}

#[test]
fn short_width_attribute_is_rejected() {
    let mut bytes: Vec<u8> = vec![0x0d, b'S', b'7', 0x0d, b'1', 0];
    // HEAD with a WIDT attribute of one byte.
    bytes.extend_from_slice(&[0, 0, 0, 17]);
    bytes.extend_from_slice(b"HEAD");
    bytes.extend_from_slice(&[0, 0, 0, 9]);
    bytes.extend_from_slice(b"WIDT");
    bytes.push(7);
    assert!(read(&bytes).is_err());
}

#[test]
fn short_date_attribute_is_rejected() {
    let mut bytes: Vec<u8> = vec![0x0d, b'S', b'7', 0x0d, b'1', 0];
    bytes.extend_from_slice(&[0, 0, 0, 20]);
    bytes.extend_from_slice(b"HEAD");
    bytes.extend_from_slice(&[0, 0, 0, 12]);
    bytes.extend_from_slice(b"DATE");
    bytes.extend_from_slice(&[0, 0, 0, 1]);
    assert!(read(&bytes).is_err());
}

#[test]
fn non_ascii_chunk_code_is_rejected() {
    let mut bytes: Vec<u8> = vec![0x0d, b'S', b'7', 0x0d, b'1', 0];
    bytes.extend_from_slice(&[0, 0, 0, 8]);
    bytes.extend_from_slice(&[b'H', 0xff, b'A', b'D']);
    assert!(read(&bytes).is_err());
}

#[test]
fn later_width_attribute_wins() {
    let mut bytes: Vec<u8> = vec![0x0d, b'S', b'7', 0x0d, b'1', 0];
    // HEAD with two WIDT attributes: the second value is kept.
    bytes.extend_from_slice(&[0, 0, 0, 28]);
    bytes.extend_from_slice(b"HEAD");
    bytes.extend_from_slice(&[0, 0, 0, 10]);
    bytes.extend_from_slice(b"WIDT");
    bytes.extend_from_slice(&[0, 7]);
    bytes.extend_from_slice(&[0, 0, 0, 10]);
    bytes.extend_from_slice(b"WIDT");
    bytes.extend_from_slice(&[0, 9]);
    let entity = read(&bytes).expect("container must parse");
    assert_eq!(entity.header_chunk.width, 9);
    assert_eq!(entity.header_chunk.height, 0);
}

#[test]
fn reading_stops_at_fend() {
    let entity = sample_entity();
    let mut bytes = s7::serialization::write::write(&entity);
    // Garbage after the FEND chunk is ignored.
    bytes.extend_from_slice(&[1, 2, 3]);
    let back = read(&bytes).expect("container must parse up to FEND");
    assert_eq!(back.other_chunks.len(), 1);
}

#[test]
fn parse_error_describes_itself() {
    let err = s7::serialization::parse_error::ParseError::new("boom");
    assert_eq!(err.describe(), "boom");
}

#[test]
fn empty_path_record_parses_to_empty_points() {
    let mut bytes: Vec<u8> = vec![0x0d, b'S', b'7', 0x0d, b'1', 0];
    bytes.extend_from_slice(&[0, 0, 0, 8]);
    bytes.extend_from_slice(b"HEAD");
    // A path record of the minimum size holds no points.
    bytes.extend_from_slice(&[0, 0, 0, 16]);
    bytes.extend_from_slice(b"DATA");
    bytes.extend_from_slice(&[0, 0, 0, 8]);
    bytes.push(b'P');
    bytes.extend_from_slice(&[7, 8, 9]);
    let entity = read(&bytes).expect("container must parse");
    match &entity.data_chunks[0].objects[0] {
        Object::Path(p) => {
            assert_eq!(p.color, [7, 8, 9]);
            assert!(p.points.is_empty());
        }
    }
}

#[test]
fn second_header_chunk_is_kept_opaque() {
    let mut bytes: Vec<u8> = vec![0x0d, b'S', b'7', 0x0d, b'1', 0];
    bytes.extend_from_slice(&[0, 0, 0, 8]);
    bytes.extend_from_slice(b"HEAD");
    // A later HEAD chunk is not recognized and survives as an opaque chunk.
    bytes.extend_from_slice(&[0, 0, 0, 9]);
    bytes.extend_from_slice(b"HEAD");
    bytes.push(42);
    let entity = read(&bytes).expect("container must parse");
    assert_eq!(entity.other_chunks.len(), 1);
    assert_eq!(entity.other_chunks[0].code, "HEAD");
    assert_eq!(entity.other_chunks[0].data, vec![42]);
}
