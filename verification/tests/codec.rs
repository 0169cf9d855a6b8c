use nbt::NamedTag;
use nbt::NbtError;
use nbt::NbtString;
use nbt::Tag;
use nbt::TagKind;
use nbt::decode;
use nbt::decode_prefix;
use nbt::encode;

fn name_of(text: &str) -> NbtString {
    NbtString::from_bytes(text.as_bytes().to_vec()).unwrap()
}

fn health_doc() -> NamedTag {
    NamedTag {
        name: name_of("root"),
        tag: Tag::Compound(vec![(name_of("health"), Tag::Short(20))]),
    }
}

const HEALTH_BYTES: [u8; 19] = [
    0x0A, 0x00, 0x04, 0x72, 0x6F, 0x6F, 0x74, 0x02, 0x00, 0x06, 0x68, 0x65, 0x61, 0x6C, 0x74,
    0x68, 0x00, 0x14, 0x00,
];

#[test]
fn exact_bytes_for_compound_with_short() {
    let out = encode(&health_doc()).unwrap();
    assert_eq!(out, HEALTH_BYTES.to_vec());
}

#[test]
fn decode_exact_bytes_for_compound_with_short() {
    let nt = decode(&HEALTH_BYTES).unwrap();
    assert_eq!(nt, health_doc());
}

fn full_doc() -> NamedTag {
    let inner = Tag::Compound(vec![
        (name_of(""), Tag::Byte(-1)),
        (name_of("dup"), Tag::Int(1)),
        (name_of("dup"), Tag::Int(2)),
    ]);
    let list = Tag::List(
        TagKind::String,
        vec![
            Tag::String(name_of("alpha")),
            Tag::String(name_of("")),
            Tag::String(name_of("omega")),
        ],
    );
    let nested_lists = Tag::List(
        TagKind::List,
        vec![
            Tag::List(TagKind::Byte, vec![Tag::Byte(1), Tag::Byte(2)]),
            Tag::List(TagKind::End, vec![]),
        ],
    );
    let tag = Tag::Compound(vec![
        (name_of("byte"), Tag::Byte(-128)),
        (name_of("short"), Tag::Short(-32768)),
        (name_of("int"), Tag::Int(-2147483648)),
        (name_of("long"), Tag::Long(-9223372036854775808)),
        (name_of("float"), Tag::Float(12.5f32.to_bits())),
        (name_of("double"), Tag::Double((-0.1f64).to_bits())),
        (name_of("bytes"), Tag::ByteArray(vec![-1, 0, 1, 127, -128])),
        (name_of("text"), Tag::String(name_of("hello"))),
        (name_of("list"), list),
        (name_of("lists"), nested_lists),
        (name_of("inner"), inner),
        (name_of("ints"), Tag::IntArray(vec![-1, 0, 2147483647])),
        (name_of("longs"), Tag::LongArray(vec![-1, 0, 9223372036854775807])),
        (name_of("empty"), Tag::List(TagKind::End, vec![])),
    ]);
    NamedTag { name: name_of("all"), tag }
}

#[test]
fn round_trip_every_kind() {
    let doc = full_doc();
    let bytes = encode(&doc).unwrap();
    let back = decode(&bytes).unwrap();
    assert_eq!(back, doc);
}

#[test]
fn reencode_is_idempotent() {
    let doc = full_doc();
    let bytes = encode(&doc).unwrap();
    let back = decode(&bytes).unwrap();
    let bytes2 = encode(&back).unwrap();
    assert_eq!(bytes2, bytes);
}

#[test]
fn truncation_at_every_offset_is_eof() {
    let doc = full_doc();
    let bytes = encode(&doc).unwrap();
    for i in 0..bytes.len() {
        let cut = &bytes[..i];
        assert_eq!(decode(cut), Err(NbtError::UnexpectedEof), "offset {}", i);
    }
}

#[test]
fn trailing_bytes_are_rejected_by_decode() {
    let mut bytes = HEALTH_BYTES.to_vec();
    bytes.push(0x55);
    assert_eq!(decode(&bytes), Err(NbtError::TrailingBytes));
}

#[test]
fn decode_prefix_tolerates_trailing_bytes() {
    let mut bytes = HEALTH_BYTES.to_vec();
    bytes.push(0x55);
    let (nt, used) = decode_prefix(&bytes).unwrap();
    assert_eq!(used, HEALTH_BYTES.len());
    assert_eq!(nt, health_doc());
}

#[test]
fn negative_byte_array_length() {
    // named ByteArray "a" with count -1 encoded as FF FF FF FF
    let bytes = [0x07, 0x00, 0x01, 0x61, 0xFF, 0xFF, 0xFF, 0xFF];
    assert_eq!(
        decode(&bytes),
        Err(NbtError::NegativeArrayLength(TagKind::ByteArray, -1))
    );
}

#[test]
fn negative_int_array_length() {
    let bytes = [0x0B, 0x00, 0x00, 0xFF, 0xFF, 0xFF, 0xFE];
    assert_eq!(
        decode(&bytes),
        Err(NbtError::NegativeArrayLength(TagKind::IntArray, -2))
    );
}

#[test]
fn negative_long_array_length() {
    let bytes = [0x0C, 0x00, 0x00, 0x80, 0x00, 0x00, 0x00];
    assert_eq!(
        decode(&bytes),
        Err(NbtError::NegativeArrayLength(TagKind::LongArray, -2147483648))
    );
}

#[test]
fn empty_list_with_end_kind_and_zero_count() {
    // named List "" with element kind 0 and count 0
    let bytes = [0x09, 0x00, 0x00, 0x00, 0x00, 0x00, 0x00, 0x00];
    let nt = decode(&bytes).unwrap();
    assert_eq!(nt.tag, Tag::List(TagKind::End, vec![]));
}

#[test]
fn empty_list_with_negative_count() {
    // count -5: still an empty list, not an error
    let bytes = [0x09, 0x00, 0x00, 0x00, 0xFF, 0xFF, 0xFF, 0xFB];
    let nt = decode(&bytes).unwrap();
    assert_eq!(nt.tag, Tag::List(TagKind::End, vec![]));
}

#[test]
fn empty_list_accepts_any_element_kind_byte() {
    // element kind byte 13 is out of the registry, but the count is 0
    let bytes = [0x09, 0x00, 0x00, 0x0D, 0x00, 0x00, 0x00, 0x00];
    let nt = decode(&bytes).unwrap();
    assert_eq!(nt.tag, Tag::List(TagKind::End, vec![]));
}

#[test]
fn unknown_kind_byte_at_root() {
    let bytes = [0x0D, 0x00, 0x00];
    assert_eq!(decode(&bytes), Err(NbtError::UnknownTagKind(13)));
}

#[test]
fn unknown_kind_byte_inside_compound() {
    // compound "" holding an entry with kind byte 13
    let bytes = [0x0A, 0x00, 0x00, 0x0D, 0x00, 0x01, 0x78, 0x00];
    assert_eq!(decode(&bytes), Err(NbtError::UnknownTagKind(13)));
}

#[test]
fn unknown_element_kind_in_nonempty_list() {
    // list "" declaring element kind 13 with count 1
    let bytes = [0x09, 0x00, 0x00, 0x0D, 0x00, 0x00, 0x00, 0x01];
    assert_eq!(decode(&bytes), Err(NbtError::UnknownTagKind(13)));
}

#[test]
fn end_element_kind_in_nonempty_list() {
    // a positive-count list cannot hold End elements
    let bytes = [0x09, 0x00, 0x00, 0x00, 0x00, 0x00, 0x00, 0x01];
    assert_eq!(decode(&bytes), Err(NbtError::UnknownTagKind(0)));
}

#[test]
fn root_end_kind_is_rejected() {
    let bytes = [0x00];
    assert_eq!(decode(&bytes), Err(NbtError::UnknownTagKind(0)));
}

#[test]
fn empty_buffer_is_eof() {
    assert_eq!(decode(&[]), Err(NbtError::UnexpectedEof));
}

#[test]
fn nesting_at_the_limit_decodes() {
    // 512 nested unnamed compounds: depth exactly at the limit
    let mut bytes = Vec::new();
    for _ in 0..511 {
        bytes.extend_from_slice(&[0x0A, 0x00, 0x00]);
    }
    bytes.extend_from_slice(&[0x0A, 0x00, 0x00]);
    for _ in 0..512 {
        bytes.push(0x00);
    }
    assert!(decode(&bytes).is_ok());
}

#[test]
fn nesting_past_the_limit_is_rejected() {
    let mut bytes = Vec::new();
    for _ in 0..513 {
        bytes.extend_from_slice(&[0x0A, 0x00, 0x00]);
    }
    for _ in 0..513 {
        bytes.push(0x00);
    }
    assert_eq!(decode(&bytes), Err(NbtError::NestingTooDeep));
}

#[test]
fn encoder_enforces_the_depth_limit() {
    let mut tag = Tag::Compound(vec![]);
    for _ in 0..513 {
        tag = Tag::Compound(vec![(name_of(""), tag)]);
    }
    let doc = NamedTag { name: name_of(""), tag };
    assert_eq!(encode(&doc), Err(NbtError::NestingTooDeep));
}

#[test]
fn encoder_accepts_the_depth_limit() {
    let mut tag = Tag::Compound(vec![]);
    for _ in 0..511 {
        tag = Tag::Compound(vec![(name_of(""), tag)]);
    }
    let doc = NamedTag { name: name_of(""), tag };
    let bytes = encode(&doc).unwrap();
    assert_eq!(decode(&bytes).unwrap(), doc);
}

#[test]
fn string_too_long_on_construction() {
    let big = vec![0x61u8; 65536];
    assert_eq!(NbtString::from_bytes(big), Err(NbtError::StringTooLong));
}

#[test]
fn string_at_the_length_limit_is_accepted() {
    let big = vec![0x61u8; 65535];
    let s = NbtString::from_bytes(big).unwrap();
    assert_eq!(s.len(), 65535);
}

#[test]
fn invalid_modified_utf8_is_rejected_on_construction() {
    assert_eq!(
        NbtString::from_bytes(vec![0x80]),
        Err(NbtError::InvalidModifiedUtf8)
    );
    assert_eq!(
        NbtString::from_bytes(vec![0xF0, 0x9F, 0x92, 0x96]),
        Err(NbtError::InvalidModifiedUtf8)
    );
    assert_eq!(
        NbtString::from_bytes(vec![0xC2]),
        Err(NbtError::InvalidModifiedUtf8)
    );
    assert_eq!(
        NbtString::from_bytes(vec![0xE0, 0x80]),
        Err(NbtError::InvalidModifiedUtf8)
    );
    assert_eq!(
        NbtString::from_bytes(vec![0xC2, 0x41]),
        Err(NbtError::InvalidModifiedUtf8)
    );
}

#[test]
fn modified_utf8_accepts_two_and_three_byte_groups() {
    // C0 80 is the modified encoding of NUL; E2 82 AC is a three-byte group
    let s = NbtString::from_bytes(vec![0xC0, 0x80, 0xE2, 0x82, 0xAC]).unwrap();
    assert_eq!(s.as_bytes(), &vec![0xC0, 0x80, 0xE2, 0x82, 0xAC]);
}

#[test]
fn invalid_modified_utf8_in_a_decoded_name() {
    // compound "" with an entry whose 1-byte name is a lone continuation byte
    let bytes = [0x0A, 0x00, 0x00, 0x01, 0x00, 0x01, 0x80, 0x07, 0x00];
    assert_eq!(decode(&bytes), Err(NbtError::InvalidModifiedUtf8));
}

#[test]
fn float_and_double_carry_exact_bit_patterns() {
    let doc = NamedTag {
        name: name_of("f"),
        tag: Tag::Compound(vec![
            (name_of("pi"), Tag::Float(3.5f32.to_bits())),
            (name_of("e"), Tag::Double(2.5f64.to_bits())),
        ]),
    };
    let bytes = encode(&doc).unwrap();
    let back = decode(&bytes).unwrap();
    assert_eq!(back, doc);
    match &back.tag {
        Tag::Compound(entries) => {
            assert_eq!(entries[0].1, Tag::Float(0x40600000));
            assert_eq!(entries[1].1, Tag::Double(0x4004000000000000));
        }
        other => panic!("expected a compound, got {:?}", other),
    }
}

#[test]
fn scalar_payloads_are_big_endian() {
    let doc = NamedTag { name: name_of(""), tag: Tag::Int(0x01020304) };
    let bytes = encode(&doc).unwrap();
    assert_eq!(bytes, vec![0x03, 0x00, 0x00, 0x01, 0x02, 0x03, 0x04]);
}

#[test]
fn long_payload_round_trip_exact_bytes() {
    let doc = NamedTag { name: name_of(""), tag: Tag::Long(-2) };
    let bytes = encode(&doc).unwrap();
    assert_eq!(
        bytes,
        vec![0x04, 0x00, 0x00, 0xFF, 0xFF, 0xFF, 0xFF, 0xFF, 0xFF, 0xFF, 0xFE]
    );
    assert_eq!(decode(&bytes).unwrap(), doc);
}

#[test]
fn bare_scalar_root_decodes() {
    // a root need not be a compound: a named Byte decodes on its own
    let bytes = [0x01, 0x00, 0x01, 0x62, 0x7F];
    let nt = decode(&bytes).unwrap();
    assert_eq!(nt.name.as_bytes(), &b"b".to_vec());
    assert_eq!(nt.tag, Tag::Byte(127));
}

#[test]
fn int_array_round_trip_exact_bytes() {
    let doc = NamedTag { name: name_of(""), tag: Tag::IntArray(vec![1, -1]) };
    let bytes = encode(&doc).unwrap();
    assert_eq!(
        bytes,
        vec![0x0B, 0x00, 0x00, 0x00, 0x00, 0x00, 0x02, 0x00, 0x00, 0x00, 0x01, 0xFF, 0xFF, 0xFF,
             0xFF]
    );
    assert_eq!(decode(&bytes).unwrap(), doc);
}

#[test]
fn kind_ids_match_the_wire_assignment() {
    assert_eq!(TagKind::End.id(), 0);
    assert_eq!(TagKind::Byte.id(), 1);
    assert_eq!(TagKind::Short.id(), 2);
    assert_eq!(TagKind::Int.id(), 3);
    assert_eq!(TagKind::Long.id(), 4);
    assert_eq!(TagKind::Float.id(), 5);
    assert_eq!(TagKind::Double.id(), 6);
    assert_eq!(TagKind::ByteArray.id(), 7);
    assert_eq!(TagKind::String.id(), 8);
    assert_eq!(TagKind::List.id(), 9);
    assert_eq!(TagKind::Compound.id(), 10);
    assert_eq!(TagKind::IntArray.id(), 11);
    assert_eq!(TagKind::LongArray.id(), 12);
}

#[test]
fn from_id_inverts_id_for_all_kinds() {
    let kinds = [
        TagKind::End,
        TagKind::Byte,
        TagKind::Short,
        TagKind::Int,
        TagKind::Long,
        TagKind::Float,
        TagKind::Double,
        TagKind::ByteArray,
        TagKind::String,
        TagKind::List,
        TagKind::Compound,
        TagKind::IntArray,
        TagKind::LongArray,
    ];
    for k in kinds {
        assert_eq!(TagKind::from_id(k.id()), Some(k));
    }
    for b in 13..=255u8 {
        assert_eq!(TagKind::from_id(b), None);
    }
}

#[test]
fn kind_len_gives_payload_or_prefix_width() {
    assert_eq!(TagKind::End.len(), 0);
    assert_eq!(TagKind::Byte.len(), 1);
    assert_eq!(TagKind::Short.len(), 2);
    assert_eq!(TagKind::Int.len(), 4);
    assert_eq!(TagKind::Long.len(), 8);
    assert_eq!(TagKind::Float.len(), 4);
    assert_eq!(TagKind::Double.len(), 8);
    assert_eq!(TagKind::ByteArray.len(), 4);
    assert_eq!(TagKind::String.len(), 2);
    assert_eq!(TagKind::List.len(), 5);
    assert_eq!(TagKind::Compound.len(), 0);
    assert_eq!(TagKind::IntArray.len(), 4);
    assert_eq!(TagKind::LongArray.len(), 4);
}

#[test]
fn is_prefixed_marks_exactly_the_variable_kinds() {
    let prefixed = [
        TagKind::ByteArray,
        TagKind::String,
        TagKind::List,
        TagKind::Compound,
        TagKind::IntArray,
        TagKind::LongArray,
    ];
    let fixed = [
        TagKind::End,
        TagKind::Byte,
        TagKind::Short,
        TagKind::Int,
        TagKind::Long,
        TagKind::Float,
        TagKind::Double,
    ];
    for k in prefixed {
        assert!(k.is_prefixed());
    }
    for k in fixed {
        assert!(!k.is_prefixed());
    }
}

#[test]
fn tag_kind_accessor_matches_variant() {
    assert_eq!(Tag::Byte(0).kind(), TagKind::Byte);
    assert_eq!(Tag::String(name_of("x")).kind(), TagKind::String);
    assert_eq!(Tag::List(TagKind::End, vec![]).kind(), TagKind::List);
    assert_eq!(Tag::Compound(vec![]).kind(), TagKind::Compound);
    assert_eq!(Tag::LongArray(vec![]).kind(), TagKind::LongArray);
}

#[test]
fn decoded_trees_reencode_canonically() {
    // a compound holding an empty list declared with element kind 13 and
    // count -5: decoding canonicalizes it, and the tree re-encodes
    let bytes = [
        0x0A, 0x00, 0x00, 0x09, 0x00, 0x01, 0x6C, 0x0D, 0xFF, 0xFF, 0xFF, 0xFB, 0x00,
    ];
    let nt = decode(&bytes).unwrap();
    let reencoded = encode(&nt).unwrap();
    assert_eq!(decode(&reencoded).unwrap(), nt);
    // the canonical form declares End with count 0
    assert_eq!(
        reencoded,
        vec![0x0A, 0x00, 0x00, 0x09, 0x00, 0x01, 0x6C, 0x00, 0x00, 0x00, 0x00, 0x00, 0x00]
    );
}
