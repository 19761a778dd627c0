use classfile::class_loader::ClassLoader;
use classfile::class_loader::ConstantPool;
use classfile::class_loader::ConstantPoolItem;
use classfile::class_loader::MethodFlags;
use classfile::class_printer::ClassPrinter;
use classfile::class_printer::pad_left;
use classfile::class_printer::pad_right;
use classfile::class_printer::u64_to_string;
use classfile::error::ConstantKind;
use classfile::error::DecodeError;

fn push_u16(b: &mut Vec<u8>, v: u16) {
    b.push((v >> 8) as u8);
    b.push(v as u8);
}

fn push_u32(b: &mut Vec<u8>, v: u32) {
    b.push((v >> 24) as u8);
    b.push((v >> 16) as u8);
    b.push((v >> 8) as u8);
    b.push(v as u8);
}

fn push_utf8(b: &mut Vec<u8>, text: &str) {
    b.push(1u8);
    push_u16(b, text.len() as u16);
    b.extend(text.as_bytes().iter().copied());
}

fn minimal_class_bytes() -> Vec<u8> {
    let mut b: Vec<u8> = Vec::new();
    push_u32(&mut b, 0xCAFEBABE);
    push_u16(&mut b, 0);
    push_u16(&mut b, 52);
    push_u16(&mut b, 5);
    push_utf8(&mut b, "Foo"); // #1
    b.push(7u8); // #2 Class -> #1
    push_u16(&mut b, 1);
    push_utf8(&mut b, "main"); // #3
    push_utf8(&mut b, "([Ljava/lang/String;)V"); // #4
    push_u16(&mut b, 0x0021);
    push_u16(&mut b, 2);
    push_u16(&mut b, 0);
    push_u16(&mut b, 0);
    push_u16(&mut b, 0);
    push_u16(&mut b, 1);
    push_u16(&mut b, 0x0009);
    push_u16(&mut b, 3);
    push_u16(&mut b, 4);
    push_u16(&mut b, 0);
    push_u16(&mut b, 0);
    b
}

fn load(bytes: Vec<u8>) -> classfile::class_loader::ClassInfo {
    ClassLoader::load_class(
        bytes,
        String::from("Foo.class"),
        String::from("01 Jan 2024"),
        String::from("0123abcd"),
    )
    .unwrap()
}

#[test]
fn decimal_rendering() {
    assert_eq!(u64_to_string(0), "0");
    assert_eq!(u64_to_string(7), "7");
    assert_eq!(u64_to_string(10), "10");
    assert_eq!(u64_to_string(52), "52");
    assert_eq!(u64_to_string(65535), "65535");
    assert_eq!(u64_to_string(1234567890), "1234567890");
}

#[test]
fn padding() {
    assert_eq!(pad_right(String::from("Utf8"), 15), "Utf8           ");
    assert_eq!(pad_right(String::from("InterfaceMethodref"), 15), "InterfaceMethodref");
    assert_eq!(pad_left(String::from("#1"), 4), "  #1");
    assert_eq!(pad_left(String::from("#1234"), 4), "#1234");
}

#[test]
fn flag_keywords_and_names() {
    let f = MethodFlags::from_bits_truncate(0x0009);
    assert_eq!(f.bits, 0x0009);
    let rows = f.iter_names();
    assert_eq!(rows.len(), 2);
    assert_eq!(rows[0].0, "ACC_PUBLIC");
    assert_eq!(rows[0].1.as_keyword(), "public");
    assert_eq!(rows[1].0, "ACC_STATIC");
    assert_eq!(rows[1].1.as_keyword(), "static");
    // unrecognized bits are truncated away
    assert_eq!(MethodFlags::from_bits_truncate(0xFFFF).bits, 0x1DFF);
    assert_eq!(MethodFlags { bits: 0x0400 }.as_keyword(), "abstract");
    assert_eq!(MethodFlags { bits: 0x0003 }.as_keyword(), "unknown");
}

/// A pool whose Method-ref resolves through two levels of indirection.
fn ref_pool_bytes() -> Vec<u8> {
    let mut b: Vec<u8> = Vec::new();
    push_u32(&mut b, 0xCAFEBABE);
    push_u16(&mut b, 0);
    push_u16(&mut b, 52);
    push_u16(&mut b, 7);
    push_utf8(&mut b, "Foo"); // #1
    b.push(7u8); // #2 Class -> #1
    push_u16(&mut b, 1);
    push_utf8(&mut b, "bar"); // #3
    push_utf8(&mut b, "()V"); // #4
    b.push(12u8); // #5 NameAndType -> #3:#4
    push_u16(&mut b, 3);
    push_u16(&mut b, 4);
    b.push(10u8); // #6 Methodref -> #2.#5
    push_u16(&mut b, 2);
    push_u16(&mut b, 5);
    push_u16(&mut b, 0);
    push_u16(&mut b, 2);
    push_u16(&mut b, 0);
    push_u16(&mut b, 0);
    push_u16(&mut b, 0);
    push_u16(&mut b, 0);
    push_u16(&mut b, 0);
    b
}

#[test]
fn constant_pool_rendering_resolves_refs() {
    let ci = load(ref_pool_bytes());
    let text = ClassPrinter::print_constant_pool(&ci.constant_pool).unwrap();
    assert!(text.starts_with("Constant pool:\n"));
    assert!(text.contains("  #1 = Utf8            Foo\n"));
    assert!(text.contains("  #2 = Class           #1              // Foo\n"));
    assert!(text.contains("  #5 = NameAndType     #3:#4           // \"bar\":()V\n"));
    assert!(text.contains("  #6 = Methodref       #2.#5           // Foo.\"bar\"()V\n"));
}

#[test]
fn inconsistent_pool_rendering_fails_with_index_error() {
    // a Method-ref whose class index points at nothing: the renderer must
    // fail with the typed lookup error, never panic
    let pool = ConstantPool {
        constants: vec![
            ConstantPoolItem::CPFiller,
            ConstantPoolItem::CPMethodRef { class_index: 9, name_and_type_index: 9 },
        ],
    };
    assert_eq!(
        ClassPrinter::print_constant_pool(&pool),
        Err(DecodeError::WrongConstantKind { index: 9, expected: ConstantKind::ClassRef })
    );
}

#[test]
fn numeric_entries_render_their_kind_label() {
    let mut b: Vec<u8> = Vec::new();
    push_u32(&mut b, 0xCAFEBABE);
    push_u16(&mut b, 0);
    push_u16(&mut b, 52);
    push_u16(&mut b, 4);
    b.push(3u8); // #1 Integer
    push_u32(&mut b, 42);
    b.push(5u8); // #2 Long (claims slot 3 too)
    push_u32(&mut b, 0);
    push_u32(&mut b, 1);
    push_u16(&mut b, 0);
    push_u16(&mut b, 0);
    push_u16(&mut b, 0);
    push_u16(&mut b, 0);
    push_u16(&mut b, 0);
    push_u16(&mut b, 0);
    push_u16(&mut b, 0);
    let ci = load(b);
    let text = ClassPrinter::print_constant_pool(&ci.constant_pool).unwrap();
    assert!(text.contains("  #1 = Integer\n"));
    assert!(text.contains("  #2 = Long\n"));
    // the Long's filler slot gets no line
    assert!(!text.contains("#3"));
}

#[test]
fn method_rendering() {
    let ci = load(minimal_class_bytes());
    let text = ClassPrinter::print_method(&ci.methods[0], &ci.constant_pool, "Foo").unwrap();
    assert_eq!(
        text,
        "  public static void main(java.lang.String[]):\n    descriptor: ([Ljava/lang/String;)V\n    flags: ACC_PUBLIC, ACC_STATIC\n"
    );
}

#[test]
fn constructor_renders_with_class_name_and_no_return_type() {
    let mut b: Vec<u8> = Vec::new();
    push_u32(&mut b, 0xCAFEBABE);
    push_u16(&mut b, 0);
    push_u16(&mut b, 52);
    push_u16(&mut b, 5);
    push_utf8(&mut b, "Foo"); // #1
    b.push(7u8); // #2 Class -> #1
    push_u16(&mut b, 1);
    push_utf8(&mut b, "<init>"); // #3
    push_utf8(&mut b, "()V"); // #4
    push_u16(&mut b, 0x0021);
    push_u16(&mut b, 2);
    push_u16(&mut b, 0);
    push_u16(&mut b, 0);
    push_u16(&mut b, 0);
    push_u16(&mut b, 1);
    push_u16(&mut b, 0x0001);
    push_u16(&mut b, 3);
    push_u16(&mut b, 4);
    push_u16(&mut b, 0);
    push_u16(&mut b, 0);
    let ci = load(b);
    assert!(ci.methods[0].is_constructor(&ci.constant_pool));
    let text = ClassPrinter::print_method(&ci.methods[0], &ci.constant_pool, "Foo").unwrap();
    assert_eq!(
        text,
        "  public Foo():\n    descriptor: ()V\n    flags: ACC_PUBLIC\n"
    );
}

#[test]
fn end_to_end_summary_counts_match_decoded_lists() {
    let ci = load(minimal_class_bytes());
    let text = ClassPrinter::print_class(&ci).unwrap();
    let expected_summary = format!(
        "  interfaces: {}, fields: {}, methods: {}, attributes: {}\n",
        ci.interfaces.len(),
        ci.fields.len(),
        ci.methods.len(),
        ci.attributes.len()
    );
    assert!(text.contains("  interfaces: 0, fields: 0, methods: 1, attributes: 0\n"));
    assert!(text.contains(&expected_summary));
    assert!(text.starts_with("Classfile Foo.class\n"));
    assert!(text.contains(&format!(
        "  Last modified 01 Jan 2024; size {} bytes\n",
        minimal_class_bytes().len()
    )));
    assert!(text.contains("  SHA-256 checksum 0123abcd\n"));
    assert!(text.contains("class Foo\n"));
    assert!(text.contains("  minor version: 0\n"));
    assert!(text.contains("  major version: 52\n"));
    assert!(text.contains("  this_class: #2\n"));
    assert!(text.contains("  super_class: #0\n"));
    assert!(text.contains("Constant pool:\n"));
    assert!(text.contains("{\n  public static void main(java.lang.String[]):\n"));
    assert!(text.ends_with("}\n"));
}

#[test]
fn compiled_from_line_when_source_file_attribute_present() {
    let mut b: Vec<u8> = Vec::new();
    push_u32(&mut b, 0xCAFEBABE);
    push_u16(&mut b, 0);
    push_u16(&mut b, 52);
    push_u16(&mut b, 5);
    push_utf8(&mut b, "Foo"); // #1
    b.push(7u8); // #2 Class -> #1
    push_u16(&mut b, 1);
    push_utf8(&mut b, "SourceFile"); // #3
    push_utf8(&mut b, "Foo.java"); // #4
    push_u16(&mut b, 0x0021);
    push_u16(&mut b, 2);
    push_u16(&mut b, 0);
    push_u16(&mut b, 0);
    push_u16(&mut b, 0);
    push_u16(&mut b, 0);
    push_u16(&mut b, 1); // one class attribute
    push_u16(&mut b, 3);
    push_u32(&mut b, 2);
    push_u16(&mut b, 4); // -> "Foo.java"
    let ci = load(b);
    let text = ClassPrinter::print_class(&ci).unwrap();
    assert!(text.contains("  Compiled from \"Foo.java\"\n"));
}

#[test]
fn external_types_unchanged_by_rendering_helpers() {
    // the converter leaves plain class names readable and attaches every
    // array dimension
    assert_eq!(
        ClassPrinter::get_as_external_type("[[Ljava/util/Map;"),
        "java.util.Map[][]"
    );
    assert_eq!(ClassPrinter::get_as_external_type("Z"), "boolean");
}
