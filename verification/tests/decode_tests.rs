use classfile::byte_array::ByteArray;
use classfile::class_loader::AttributeInfo;
use classfile::class_loader::ClassLoader;
use classfile::class_loader::ConstantPoolItem;
use classfile::error::ConstantKind;
use classfile::error::DecodeError;

fn push_u16(b: &mut Vec<u8>, v: u16) {
    b.push((v >> 8) as u8);
    b.push(v as u8);
}

fn push_u32(b: &mut Vec<u8>, v: u32) {
    b.push((v >> 24) as u8);
    b.push((v >> 16) as u8);
    b.push((v >> 8) as u8);
    b.push(v as u8);
}

fn push_utf8(b: &mut Vec<u8>, text: &str) {
    b.push(1u8);
    push_u16(b, text.len() as u16);
    b.extend(text.as_bytes().iter().copied());
}

/// A minimal one-method class file: class Foo with a single
/// `public static void main(java.lang.String[])` and no attributes.
fn minimal_class_bytes() -> Vec<u8> {
    let mut b: Vec<u8> = Vec::new();
    push_u32(&mut b, 0xCAFEBABE);
    push_u16(&mut b, 0); // minor
    push_u16(&mut b, 52); // major
    push_u16(&mut b, 5); // constant pool count
    push_utf8(&mut b, "Foo"); // #1
    b.push(7u8); // #2 Class -> #1
    push_u16(&mut b, 1);
    push_utf8(&mut b, "main"); // #3
    push_utf8(&mut b, "([Ljava/lang/String;)V"); // #4
    push_u16(&mut b, 0x0021); // access flags
    push_u16(&mut b, 2); // this_class
    push_u16(&mut b, 0); // super_class
    push_u16(&mut b, 0); // interfaces
    push_u16(&mut b, 0); // fields
    push_u16(&mut b, 1); // methods
    push_u16(&mut b, 0x0009); // method access flags
    push_u16(&mut b, 3); // name index
    push_u16(&mut b, 4); // descriptor index
    push_u16(&mut b, 0); // method attributes
    push_u16(&mut b, 0); // class attributes
    b
}

fn load(bytes: Vec<u8>) -> Result<classfile::class_loader::ClassInfo, DecodeError> {
    ClassLoader::load_class(
        bytes,
        String::from("Foo.class"),
        String::from("01 Jan 2024"),
        String::from("0123abcd"),
    )
}

#[test]
fn cursor_reads_big_endian() {
    let mut ba = ByteArray::new(vec![0x12, 0x34, 0x56, 0x78, 0xAB], 0);
    assert_eq!(ba.read_u32(), Ok(0x12345678));
    assert_eq!(ba.read_u8(), Ok(0xAB));
    assert_eq!(ba.read_u8(), Err(DecodeError::TruncatedInput));
}

#[test]
fn cursor_read_u16_and_bytes() {
    let mut ba = ByteArray::new(vec![0x01, 0x02, 0x03, 0x04], 0);
    assert_eq!(ba.read_u16(), Ok(0x0102));
    let rest = ba.read_bytes(2).unwrap();
    assert_eq!(rest, vec![0x03, 0x04]);
    assert_eq!(ba.len(), 4);
    assert_eq!(ba.read_u16(), Err(DecodeError::TruncatedInput));
}

#[test]
fn cursor_truncated_read_leaves_position() {
    let mut ba = ByteArray::new(vec![0x01], 0);
    assert_eq!(ba.read_u32(), Err(DecodeError::TruncatedInput));
    // the failed read consumed nothing, so a one-byte read still works
    assert_eq!(ba.read_u8(), Ok(0x01));
}

#[test]
fn load_minimal_class() {
    let ci = load(minimal_class_bytes()).unwrap();
    assert_eq!(ci.minor_version, 0);
    assert_eq!(ci.major_version, 52);
    assert_eq!(ci.access_flags, 0x0021);
    assert_eq!(ci.this_class, 2);
    assert_eq!(ci.super_class, 0);
    assert_eq!(ci.interfaces.len(), 0);
    assert_eq!(ci.fields.len(), 0);
    assert_eq!(ci.methods.len(), 1);
    assert_eq!(ci.attributes.len(), 0);
    assert_eq!(ci.file_path, "Foo.class");
    assert_eq!(ci.last_modified, "01 Jan 2024");
    assert_eq!(ci.hash, "0123abcd");
    assert_eq!(ci.size, minimal_class_bytes().len());
    let m = &ci.methods[0];
    assert_eq!(m.access_flags.bits, 0x0009);
    assert_eq!(m.args, vec![String::from("[Ljava/lang/String;")]);
    assert_eq!(m.return_type, "V");
    assert_eq!(m.get_name(&ci.constant_pool).unwrap().as_str(), "main");
    assert!(!m.is_constructor(&ci.constant_pool));
}

#[test]
fn bad_magic_is_fatal() {
    let mut bytes = minimal_class_bytes();
    bytes[0] = 0xCB;
    assert_eq!(load(bytes).err(), Some(DecodeError::BadMagic));
}

#[test]
fn truncated_mid_pool_fails_with_truncated_input() {
    let bytes = minimal_class_bytes();
    // cut inside the first UTF8 entry's text
    let cut = bytes[..12].to_vec();
    assert_eq!(load(cut).err(), Some(DecodeError::TruncatedInput));
}

#[test]
fn truncated_mid_method_fails_with_truncated_input() {
    let bytes = minimal_class_bytes();
    // cut right before the method's descriptor index
    let cut = bytes[..bytes.len() - 6].to_vec();
    assert_eq!(load(cut).err(), Some(DecodeError::TruncatedInput));
}

#[test]
fn every_strict_prefix_fails_with_truncated_input() {
    let bytes = minimal_class_bytes();
    for n in 0..bytes.len() {
        let cut = bytes[..n].to_vec();
        assert_eq!(load(cut).err(), Some(DecodeError::TruncatedInput));
    }
}

#[test]
fn unsupported_constant_tag_is_reported() {
    let mut b: Vec<u8> = Vec::new();
    push_u32(&mut b, 0xCAFEBABE);
    push_u16(&mut b, 0);
    push_u16(&mut b, 52);
    push_u16(&mut b, 2); // one declared entry
    b.push(19u8); // not a recognized tag
    assert_eq!(load(b).err(), Some(DecodeError::UnsupportedConstantTag { tag: 19 }));
}

#[test]
fn slot_zero_is_never_a_valid_lookup_target() {
    let ci = load(minimal_class_bytes()).unwrap();
    assert!(ci.constant_pool.get_string(0).is_err());
    assert!(ci.constant_pool.get_class_info(0).is_err());
    assert!(ci.constant_pool.get_name_and_type(0).is_err());
    assert!(matches!(&ci.constant_pool.constants[0], ConstantPoolItem::CPFiller));
}

#[test]
fn wrong_constant_kind_is_typed() {
    let ci = load(minimal_class_bytes()).unwrap();
    // slot 2 holds a Class entry, not a UTF8 entry
    assert_eq!(
        ci.constant_pool.get_string(2),
        Err(DecodeError::WrongConstantKind { index: 2, expected: ConstantKind::Utf8 })
    );
    // an index past the pool end fails too
    assert!(ci.constant_pool.get_class_info(99).is_err());
    assert_eq!(ci.constant_pool.get_class_info(2), Ok(1));
    assert_eq!(ci.constant_pool.get_string(1).unwrap().as_str(), "Foo");
}

#[test]
fn long_entry_occupies_two_slots() {
    let mut b: Vec<u8> = Vec::new();
    push_u32(&mut b, 0xCAFEBABE);
    push_u16(&mut b, 0);
    push_u16(&mut b, 52);
    push_u16(&mut b, 4); // declared count: slots 1..3
    b.push(5u8); // #1 Long (also claims slot 2)
    push_u32(&mut b, 0x00000001);
    push_u32(&mut b, 0x00000002);
    push_utf8(&mut b, "A"); // #3
    push_u16(&mut b, 0); // access flags
    push_u16(&mut b, 0); // this_class
    push_u16(&mut b, 0); // super_class
    push_u16(&mut b, 0); // interfaces
    push_u16(&mut b, 0); // fields
    push_u16(&mut b, 0); // methods
    push_u16(&mut b, 0); // attributes
    let ci = load(b).unwrap();
    let pool = &ci.constant_pool.constants;
    // declared count 4: slots 0..3, slot 0 and the Long's second slot filled
    assert_eq!(pool.len(), 4);
    assert!(matches!(&pool[0], ConstantPoolItem::CPFiller));
    assert!(matches!(
        &pool[1],
        ConstantPoolItem::CPLongInfo { high_bytes: 1, low_bytes: 2 }
    ));
    assert!(matches!(&pool[2], ConstantPoolItem::CPFiller));
    assert_eq!(ci.constant_pool.get_string(3).unwrap().as_str(), "A");
    let fillers = pool
        .iter()
        .filter(|e| matches!(e, ConstantPoolItem::CPFiller))
        .count();
    // addressable entries: declared count - 1, minus one per Long/Double
    assert_eq!(pool.len() - fillers, 4 - 1 - 1);
}

#[test]
fn modified_utf8_null_and_supplementary() {
    let mut b: Vec<u8> = Vec::new();
    push_u32(&mut b, 0xCAFEBABE);
    push_u16(&mut b, 0);
    push_u16(&mut b, 52);
    push_u16(&mut b, 3);
    // #1: modified UTF-8 encodes U+0000 as C0 80
    b.push(1u8);
    push_u16(&mut b, 2);
    b.push(0xC0);
    b.push(0x80);
    // #2: a surrogate pair encoding U+10401
    b.push(1u8);
    push_u16(&mut b, 6);
    b.extend([0xED, 0xA0, 0x81, 0xED, 0xB0, 0x81]);
    push_u16(&mut b, 0);
    push_u16(&mut b, 0);
    push_u16(&mut b, 0);
    push_u16(&mut b, 0);
    push_u16(&mut b, 0);
    push_u16(&mut b, 0);
    push_u16(&mut b, 0);
    let ci = load(b).unwrap();
    assert_eq!(ci.constant_pool.get_string(1).unwrap().as_str(), "\u{0}");
    assert_eq!(ci.constant_pool.get_string(2).unwrap().as_str(), "\u{10401}");
}

#[test]
fn invalid_modified_utf8_is_rejected() {
    let mut b: Vec<u8> = Vec::new();
    push_u32(&mut b, 0xCAFEBABE);
    push_u16(&mut b, 0);
    push_u16(&mut b, 52);
    push_u16(&mut b, 2);
    b.push(1u8);
    push_u16(&mut b, 1);
    b.push(0xFF); // not valid in any UTF-8 flavour
    assert_eq!(load(b).err(), Some(DecodeError::MalformedUtf8));
}

/// A class whose single method carries a Code attribute with a nested
/// LineNumberTable, plus an attribute with an unrecognized name.
fn class_with_attributes_bytes() -> Vec<u8> {
    let mut b: Vec<u8> = Vec::new();
    push_u32(&mut b, 0xCAFEBABE);
    push_u16(&mut b, 0);
    push_u16(&mut b, 52);
    push_u16(&mut b, 8);
    push_utf8(&mut b, "Foo"); // #1
    b.push(7u8); // #2 Class -> #1
    push_u16(&mut b, 1);
    push_utf8(&mut b, "run"); // #3
    push_utf8(&mut b, "()V"); // #4
    push_utf8(&mut b, "Code"); // #5
    push_utf8(&mut b, "LineNumberTable"); // #6
    push_utf8(&mut b, "Whatever"); // #7
    push_u16(&mut b, 0x0021);
    push_u16(&mut b, 2);
    push_u16(&mut b, 0);
    push_u16(&mut b, 0); // interfaces
    push_u16(&mut b, 0); // fields
    push_u16(&mut b, 1); // methods
    push_u16(&mut b, 0x0001); // method flags
    push_u16(&mut b, 3); // name
    push_u16(&mut b, 4); // descriptor
    push_u16(&mut b, 1); // one method attribute: Code
    push_u16(&mut b, 5); // name index "Code"
    push_u32(&mut b, 2 + 2 + 4 + 1 + 2 + 2 + 2 + 4 + 6); // declared length 25
    push_u16(&mut b, 2); // max_stack
    push_u16(&mut b, 1); // max_locals
    push_u32(&mut b, 1); // code length
    b.push(0xB1); // one opcode
    push_u16(&mut b, 0); // exception table length
    push_u16(&mut b, 1); // one nested attribute
    push_u16(&mut b, 6); // name index "LineNumberTable"
    push_u32(&mut b, 6); // declared length
    push_u16(&mut b, 1); // one row
    push_u16(&mut b, 0); // start_pc
    push_u16(&mut b, 17); // line_number
    push_u16(&mut b, 1); // one class attribute, unrecognized
    push_u16(&mut b, 7); // name index "Whatever"
    push_u32(&mut b, 3); // declared length
    b.extend([9u8, 9u8, 9u8]); // opaque payload, skipped by length
    b
}

#[test]
fn code_attribute_with_nested_line_number_table() {
    let ci = load(class_with_attributes_bytes()).unwrap();
    let m = &ci.methods[0];
    assert_eq!(m.attributes.len(), 1);
    match &m.attributes[0] {
        AttributeInfo::ATCode { max_stack, max_locals, code, exceptions, attributes } => {
            assert_eq!(*max_stack, 2);
            assert_eq!(*max_locals, 1);
            assert_eq!(code, &vec![0xB1u8]);
            assert_eq!(exceptions.len(), 0);
            assert_eq!(attributes.len(), 1);
            match &attributes[0] {
                AttributeInfo::ATLineNumberTable { entries } => {
                    assert_eq!(entries.len(), 1);
                    assert_eq!(entries[0].start_pc, 0);
                    assert_eq!(entries[0].line_number, 17);
                }
                _ => panic!("expected a LineNumberTable inside Code"),
            }
        }
        _ => panic!("expected a Code attribute"),
    }
}

#[test]
fn unknown_attribute_is_skipped_not_fatal() {
    let ci = load(class_with_attributes_bytes()).unwrap();
    // the unrecognized class-level attribute is kept as an opaque entry
    assert_eq!(ci.attributes.len(), 1);
    assert!(matches!(
        &ci.attributes[0],
        AttributeInfo::ATUnknown { attribute_name_index: 7 }
    ));
    // and the rest of the file decoded: the method and its Code are there
    assert_eq!(ci.methods.len(), 1);
}

#[test]
fn recognized_attribute_length_mismatch_is_a_distinct_error() {
    let mut bytes = class_with_attributes_bytes();
    // corrupt the Code attribute's declared length (it sits right after the
    // name index #5 of the first method attribute)
    let pos = bytes
        .windows(6)
        .position(|w| w == [0u8, 5, 0, 0, 0, 25])
        .unwrap();
    bytes[pos + 5] = 26;
    assert_eq!(load(bytes).err(), Some(DecodeError::AttributeLengthMismatch));
}

#[test]
fn source_file_attribute_is_decoded() {
    let mut b: Vec<u8> = Vec::new();
    push_u32(&mut b, 0xCAFEBABE);
    push_u16(&mut b, 0);
    push_u16(&mut b, 52);
    push_u16(&mut b, 4);
    push_utf8(&mut b, "Foo"); // #1
    b.push(7u8); // #2 Class -> #1
    push_u16(&mut b, 1);
    push_utf8(&mut b, "SourceFile"); // #3
    push_u16(&mut b, 0x0021);
    push_u16(&mut b, 2);
    push_u16(&mut b, 0);
    push_u16(&mut b, 0); // interfaces
    push_u16(&mut b, 0); // fields
    push_u16(&mut b, 0); // methods
    push_u16(&mut b, 1); // one class attribute
    push_u16(&mut b, 3); // name index "SourceFile"
    push_u32(&mut b, 2); // declared length
    push_u16(&mut b, 1); // source file index -> "Foo"
    let ci = load(b).unwrap();
    assert!(matches!(
        &ci.attributes[0],
        AttributeInfo::ATSourceFile { source_file_index: 1 }
    ));
}

#[test]
fn interfaces_are_read_in_order() {
    let mut b: Vec<u8> = Vec::new();
    push_u32(&mut b, 0xCAFEBABE);
    push_u16(&mut b, 0);
    push_u16(&mut b, 52);
    push_u16(&mut b, 1); // empty pool
    push_u16(&mut b, 0);
    push_u16(&mut b, 0);
    push_u16(&mut b, 0);
    push_u16(&mut b, 3); // three interfaces
    push_u16(&mut b, 7);
    push_u16(&mut b, 11);
    push_u16(&mut b, 13);
    push_u16(&mut b, 0); // fields
    push_u16(&mut b, 0); // methods
    push_u16(&mut b, 0); // attributes
    let ci = load(b).unwrap();
    assert_eq!(ci.interfaces, vec![7, 11, 13]);
}

#[test]
fn every_tag_keeps_stream_alignment() {
    let mut b: Vec<u8> = Vec::new();
    push_u32(&mut b, 0xCAFEBABE);
    push_u16(&mut b, 0);
    push_u16(&mut b, 52);
    push_u16(&mut b, 14); // slots 1..13
    push_utf8(&mut b, "x"); // #1 Utf8
    b.push(3u8); // #2 Integer
    push_u32(&mut b, 7);
    b.push(4u8); // #3 Float (raw bits kept, not interpreted)
    push_u32(&mut b, 0x3F800000);
    b.push(6u8); // #4 Double (claims slot 5 too)
    push_u32(&mut b, 0x40090000);
    push_u32(&mut b, 0x00000000);
    b.push(7u8); // #6 Class -> #1
    push_u16(&mut b, 1);
    b.push(8u8); // #7 String -> #1
    push_u16(&mut b, 1);
    b.push(9u8); // #8 Fieldref
    push_u16(&mut b, 6);
    push_u16(&mut b, 10);
    b.push(11u8); // #9 InterfaceMethodref
    push_u16(&mut b, 6);
    push_u16(&mut b, 10);
    b.push(12u8); // #10 NameAndType -> #1:#1
    push_u16(&mut b, 1);
    push_u16(&mut b, 1);
    b.push(15u8); // #11 MethodHandle
    b.push(6u8);
    push_u16(&mut b, 8);
    b.push(16u8); // #12 MethodType -> #1
    push_u16(&mut b, 1);
    b.push(18u8); // #13 InvokeDynamic
    push_u16(&mut b, 0);
    push_u16(&mut b, 10);
    push_u16(&mut b, 0); // access
    push_u16(&mut b, 0); // this
    push_u16(&mut b, 0); // super
    push_u16(&mut b, 0); // interfaces
    push_u16(&mut b, 0); // fields
    push_u16(&mut b, 0); // methods
    push_u16(&mut b, 0); // attributes
    let ci = load(b).unwrap();
    let pool = &ci.constant_pool.constants;
    assert_eq!(pool.len(), 14);
    assert!(matches!(&pool[2], ConstantPoolItem::CPIntegerInfo { raw: 7 }));
    assert!(matches!(&pool[3], ConstantPoolItem::CPFloatInfo { raw: 0x3F800000 }));
    assert!(matches!(
        &pool[4],
        ConstantPoolItem::CPDoubleInfo { high_bytes: 0x40090000, low_bytes: 0 }
    ));
    assert!(matches!(&pool[5], ConstantPoolItem::CPFiller));
    assert!(matches!(&pool[6], ConstantPoolItem::CPClassInfo { name_index: 1 }));
    assert!(matches!(&pool[7], ConstantPoolItem::CPStringInfo { string_index: 1 }));
    assert!(matches!(
        &pool[8],
        ConstantPoolItem::CPFieldRef { class_index: 6, name_and_type_index: 10 }
    ));
    assert!(matches!(
        &pool[9],
        ConstantPoolItem::CPInterfaceMethodRef { class_index: 6, name_and_type_index: 10 }
    ));
    assert!(matches!(
        &pool[10],
        ConstantPoolItem::CPNameAndTypeInfo { name_index: 1, descriptor_index: 1 }
    ));
    assert!(matches!(
        &pool[11],
        ConstantPoolItem::CPMethodHandle { reference_kind: 6, reference_index: 8 }
    ));
    assert!(matches!(&pool[12], ConstantPoolItem::CPMethodType { descriptor_index: 1 }));
    assert!(matches!(
        &pool[13],
        ConstantPoolItem::CPInvokeDynamic { bootstrap_method_attr_index: 0, name_and_type_index: 10 }
    ));
}

#[test]
fn fields_are_decoded_with_their_attributes() {
    let mut b: Vec<u8> = Vec::new();
    push_u32(&mut b, 0xCAFEBABE);
    push_u16(&mut b, 0);
    push_u16(&mut b, 52);
    push_u16(&mut b, 4);
    push_utf8(&mut b, "count"); // #1
    push_utf8(&mut b, "I"); // #2
    push_utf8(&mut b, "ConstantValue"); // #3 (outside the recognized set)
    push_u16(&mut b, 0); // access
    push_u16(&mut b, 0); // this
    push_u16(&mut b, 0); // super
    push_u16(&mut b, 0); // interfaces
    push_u16(&mut b, 2); // two fields
    push_u16(&mut b, 0x0002); // field 1: private
    push_u16(&mut b, 1); // name -> "count"
    push_u16(&mut b, 2); // descriptor -> "I"
    push_u16(&mut b, 1); // one attribute
    push_u16(&mut b, 3); // name -> "ConstantValue"
    push_u32(&mut b, 2); // declared length
    push_u16(&mut b, 9); // opaque payload, skipped by length
    push_u16(&mut b, 0x0008); // field 2: static
    push_u16(&mut b, 1);
    push_u16(&mut b, 2);
    push_u16(&mut b, 0); // no attributes
    push_u16(&mut b, 0); // methods
    push_u16(&mut b, 0); // class attributes
    let ci = load(b).unwrap();
    assert_eq!(ci.fields.len(), 2);
    assert_eq!(ci.fields[0].access_flags, 0x0002);
    assert_eq!(ci.fields[0].name_index, 1);
    assert_eq!(ci.fields[0].descriptor_index, 2);
    assert_eq!(ci.fields[0].attributes.len(), 1);
    assert!(matches!(
        &ci.fields[0].attributes[0],
        AttributeInfo::ATUnknown { attribute_name_index: 3 }
    ));
    assert_eq!(ci.fields[1].access_flags, 0x0008);
    assert_eq!(ci.fields[1].attributes.len(), 0);
}

#[test]
fn exception_and_local_variable_tables_are_decoded() {
    let mut b: Vec<u8> = Vec::new();
    push_u32(&mut b, 0xCAFEBABE);
    push_u16(&mut b, 0);
    push_u16(&mut b, 52);
    push_u16(&mut b, 5);
    push_utf8(&mut b, "go"); // #1
    push_utf8(&mut b, "()V"); // #2
    push_utf8(&mut b, "Code"); // #3
    push_utf8(&mut b, "LocalVariableTable"); // #4
    push_u16(&mut b, 0); // access
    push_u16(&mut b, 0); // this
    push_u16(&mut b, 0); // super
    push_u16(&mut b, 0); // interfaces
    push_u16(&mut b, 0); // fields
    push_u16(&mut b, 1); // one method
    push_u16(&mut b, 0x0001);
    push_u16(&mut b, 1); // name
    push_u16(&mut b, 2); // descriptor
    push_u16(&mut b, 1); // one attribute: Code
    push_u16(&mut b, 3); // "Code"
    push_u32(&mut b, 2 + 2 + 4 + 2 + 2 + 8 + 2 + 2 + 4 + 2 + 10); // declared length 40
    push_u16(&mut b, 1); // max_stack
    push_u16(&mut b, 2); // max_locals
    push_u32(&mut b, 2); // code length
    b.extend([0x00u8, 0xB1]); // two opcodes
    push_u16(&mut b, 1); // one exception-table row
    push_u16(&mut b, 0); // start_pc
    push_u16(&mut b, 2); // end_pc
    push_u16(&mut b, 2); // handler_pc
    push_u16(&mut b, 0); // catch_type
    push_u16(&mut b, 1); // one nested attribute
    push_u16(&mut b, 4); // "LocalVariableTable"
    push_u32(&mut b, 12); // declared length
    push_u16(&mut b, 1); // one row
    push_u16(&mut b, 0); // start_pc
    push_u16(&mut b, 2); // length
    push_u16(&mut b, 1); // name index
    push_u16(&mut b, 2); // descriptor index
    push_u16(&mut b, 0); // slot index
    push_u16(&mut b, 0); // class attributes
    let ci = load(b).unwrap();
    match &ci.methods[0].attributes[0] {
        AttributeInfo::ATCode { code, exceptions, attributes, .. } => {
            assert_eq!(code.len(), 2);
            assert_eq!(exceptions.len(), 1);
            assert_eq!(exceptions[0].start_pc, 0);
            assert_eq!(exceptions[0].end_pc, 2);
            assert_eq!(exceptions[0].handler_pc, 2);
            assert_eq!(exceptions[0].catch_type, 0);
            match &attributes[0] {
                AttributeInfo::ATLocalVariableTable { entries } => {
                    assert_eq!(entries.len(), 1);
                    assert_eq!(entries[0].start_pc, 0);
                    assert_eq!(entries[0].length, 2);
                    assert_eq!(entries[0].name_index, 1);
                    assert_eq!(entries[0].descriptor_index, 2);
                    assert_eq!(entries[0].index, 0);
                }
                _ => panic!("expected a LocalVariableTable inside Code"),
            }
        }
        _ => panic!("expected a Code attribute"),
    }
}
