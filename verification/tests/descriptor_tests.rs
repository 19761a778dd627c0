use classfile::class_printer::ClassPrinter;
use classfile::descriptor_parser::parse_descriptor;
use classfile::error::DecodeError;

#[test]
fn parse_ints_long_and_class_reference() {
    let d = parse_descriptor(String::from("(IJLjava/lang/String;)V")).unwrap();
    assert_eq!(
        d.args,
        vec![
            String::from("I"),
            String::from("J"),
            String::from("Ljava/lang/String;"),
        ]
    );
    assert_eq!(d.return_type, "V");
    let externals: Vec<String> = d
        .args
        .iter()
        .map(|t| ClassPrinter::get_as_external_type(t.as_str()))
        .collect();
    assert_eq!(
        externals,
        vec![
            String::from("int"),
            String::from("long"),
            String::from("java.lang.String"),
        ]
    );
    assert_eq!(
        ClassPrinter::get_as_external_type(d.return_type.as_str()),
        "void"
    );
}

#[test]
fn parse_array_argument_and_array_return() {
    let d = parse_descriptor(String::from("([I)[[D")).unwrap();
    assert_eq!(d.args, vec![String::from("[I")]);
    assert_eq!(d.return_type, "[[D");
    assert_eq!(ClassPrinter::get_as_external_type("[I"), "int[]");
    assert_eq!(ClassPrinter::get_as_external_type("[[D"), "double[][]");
}

#[test]
fn parse_empty_argument_list() {
    let d = parse_descriptor(String::from("()Z")).unwrap();
    assert_eq!(d.args.len(), 0);
    assert_eq!(d.return_type, "Z");
}

#[test]
fn parse_array_of_class_reference() {
    let d = parse_descriptor(String::from("([Ljava/util/List;SB)J")).unwrap();
    assert_eq!(
        d.args,
        vec![
            String::from("[Ljava/util/List;"),
            String::from("S"),
            String::from("B"),
        ]
    );
    assert_eq!(d.return_type, "J");
    assert_eq!(
        ClassPrinter::get_as_external_type("[Ljava/util/List;"),
        "java.util.List[]"
    );
}

#[test]
fn missing_parenthesis_is_malformed() {
    assert_eq!(
        parse_descriptor(String::from("I)V")).err(),
        Some(DecodeError::MalformedDescriptor)
    );
    assert_eq!(
        parse_descriptor(String::from("(IV")).err(),
        Some(DecodeError::MalformedDescriptor)
    );
    assert_eq!(
        parse_descriptor(String::from("")).err(),
        Some(DecodeError::MalformedDescriptor)
    );
}

#[test]
fn unknown_primitive_code_is_malformed() {
    assert_eq!(
        parse_descriptor(String::from("(Q)V")).err(),
        Some(DecodeError::MalformedDescriptor)
    );
    assert_eq!(
        parse_descriptor(String::from("(I)Q")).err(),
        Some(DecodeError::MalformedDescriptor)
    );
}

#[test]
fn unterminated_class_reference_is_malformed() {
    assert_eq!(
        parse_descriptor(String::from("(LFoo)V")).err(),
        Some(DecodeError::MalformedDescriptor)
    );
    assert_eq!(
        parse_descriptor(String::from("(I)LBar")).err(),
        Some(DecodeError::MalformedDescriptor)
    );
}

#[test]
fn dangling_array_marks_are_malformed() {
    assert_eq!(
        parse_descriptor(String::from("([)V")).err(),
        Some(DecodeError::MalformedDescriptor)
    );
    assert_eq!(
        parse_descriptor(String::from("(I)[")).err(),
        Some(DecodeError::MalformedDescriptor)
    );
}

#[test]
fn missing_return_type_is_malformed() {
    assert_eq!(
        parse_descriptor(String::from("(I)")).err(),
        Some(DecodeError::MalformedDescriptor)
    );
    // two return types are exactly one too many
    assert_eq!(
        parse_descriptor(String::from("(I)II")).err(),
        Some(DecodeError::MalformedDescriptor)
    );
}

#[test]
fn primitive_keywords() {
    assert_eq!(ClassPrinter::char_to_type('V'), "void");
    assert_eq!(ClassPrinter::char_to_type('B'), "byte");
    assert_eq!(ClassPrinter::char_to_type('C'), "char");
    assert_eq!(ClassPrinter::char_to_type('D'), "double");
    assert_eq!(ClassPrinter::char_to_type('F'), "float");
    assert_eq!(ClassPrinter::char_to_type('I'), "int");
    assert_eq!(ClassPrinter::char_to_type('J'), "long");
    assert_eq!(ClassPrinter::char_to_type('S'), "short");
    assert_eq!(ClassPrinter::char_to_type('Z'), "boolean");
    assert_eq!(ClassPrinter::char_to_type('X'), "unknown");
}
