use diamond_tools::task_params::{
    describe_field, extract_doc, extract_field_param_type, FieldType, OptionalParamType, ParamTypeError,
    VariadicParamType,
};

fn path(ident: &str, arg: Option<FieldType>) -> FieldType {
    FieldType::Path { ident: ident.to_owned(), arg: arg.map(Box::new) }
}

fn plain(ident: &str) -> FieldType {
    path(ident, None)
}

fn docs(lines: &[&str]) -> Vec<String> {
    lines.iter().map(|l| l.to_string()).collect()
}

#[test]
fn test_params_derive() {
    // struct Params {
    //     /// Small doc
    //     pub flag: bool,
    //     /// Big doc
    //     ///
    //     /// With multiple lines
    //     pub flag1: bool,
    //     /// Big doc
    //     ///
    //     /// With multiple lines
    //     ///
    //     /// And even more
    //     pub name: String,
    //     pub optional: Option<String>,
    //     pub variadic: Vec<String>,
    //     pub optional_variadic: Option<Vec<String>>,
    // }
    let fields = vec![
        ("flag", docs(&[" Small doc"]), plain("bool")),
        ("flag1", docs(&[" Big doc", "", " With multiple lines"]), plain("bool")),
        (
            "name",
            docs(&[" Big doc", "", " With multiple lines", "", " And even more"]),
            plain("String"),
        ),
        ("optional", docs(&[]), path("Option", Some(plain("String")))),
        ("variadic", docs(&[]), path("Vec", Some(plain("String")))),
        ("optional_variadic", docs(&[]), path("Option", Some(path("Vec", Some(plain("String")))))),
    ];
    let expected = vec![
        ("flag", "Small doc\n", OptionalParamType::Flag),
        ("flag1", "Big doc\n\nWith multiple lines\n", OptionalParamType::Flag),
        ("name", "Big doc\n\nWith multiple lines\n\nAnd even more\n", OptionalParamType::Plain),
        ("optional", "", OptionalParamType::Option(VariadicParamType::Plain)),
        ("variadic", "", OptionalParamType::Vec),
        ("optionalVariadic", "", OptionalParamType::Option(VariadicParamType::Vec)),
    ];
    for ((field, doc, ty), (name, text, kind)) in fields.iter().zip(expected) {
        let p = describe_field(field, doc, ty).expect("field is supported");
        assert_eq!(p.name, name);
        assert_eq!(p.doc, text);
        assert_eq!(p.kind, kind);
    }
}

#[test]
fn doc_lines_skip_leading_and_trailing_blanks() {
    assert_eq!(extract_doc(&docs(&["", "  ", " a", "", "  b", " ", ""])), docs(&["a", "", " b"]));
    assert_eq!(extract_doc(&docs(&[" one\n two\n\tthree"])), docs(&["one", "two", "\tthree"]));
    assert!(extract_doc(&docs(&[" ", "\n"])).is_empty());
}

#[test]
fn unsupported_field_types() {
    assert_eq!(extract_field_param_type(&FieldType::Other), Err(ParamTypeError::NotAPath));
    assert_eq!(extract_field_param_type(&plain("Option")), Err(ParamTypeError::MissingGenericArgument));
    assert_eq!(extract_field_param_type(&plain("Vec")), Err(ParamTypeError::MissingGenericArgument));
    assert_eq!(
        extract_field_param_type(&path("Option", Some(FieldType::Other))),
        Err(ParamTypeError::NotAPath)
    );
    assert_eq!(
        extract_field_param_type(&path("Option", Some(plain("Vec")))),
        Err(ParamTypeError::MissingGenericArgument)
    );
    assert!(matches!(
        describe_field("x", &docs(&[]), &FieldType::Other),
        Err(ParamTypeError::NotAPath)
    ));
}

#[test]
fn camel_case_names() {
    let p = describe_field("out_contract_name", &docs(&[]), &plain("u32")).unwrap();
    assert_eq!(p.name, "outContractName");
    assert_eq!(p.kind, OptionalParamType::Plain);
}
