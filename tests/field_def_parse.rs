use paramdex::deserialize::field_def_parse::{parse_param_field_def, DefParseError, ErrSpan};
use paramdex::{DummyType, ParamFieldDef, ParamFieldType};

fn assert_def(def: ParamFieldDef, name: &str, default_value: Option<f64>, field_type: ParamFieldType) {
    assert_eq!(def.name, name);
    assert_eq!(def.field_type, field_type);
    assert_eq!(
        def.default_value.map(|t| t.parse::<f64>().expect("default is a number")),
        default_value
    );
}

#[test]
fn dummy_parse_array() {
    let def = "dummy8 reserve_last[32]";
    assert_def(
        parse_param_field_def(def).expect("parses"),
        "reserve_last",
        None,
        ParamFieldType::dummy8 { length: Some(DummyType::Bytes(32)) },
    )
}

#[test]
fn dummy_parse_bitsize() {
    let def = "dummy8 disableParamReserve1:7";
    assert_def(
        parse_param_field_def(def).expect("parses"),
        "disableParamReserve1",
        None,
        ParamFieldType::dummy8 { length: Some(DummyType::Bits(7)) },
    )
}

#[test]
fn dummy_with_array_and_default() {
    let def = "dummy8 pad_3[16] = -1";
    assert_def(
        parse_param_field_def(def).expect("parses"),
        "pad_3",
        Some(-1.0),
        ParamFieldType::dummy8 { length: Some(DummyType::Bytes(16)) },
    )
}

#[test]
fn simple() {
    assert_def(
        parse_param_field_def("u32 testingVar").expect("parses"),
        "testingVar",
        None,
        ParamFieldType::u32 { bit_size: None },
    )
}

#[test]
fn simple_s() {
    assert_def(
        parse_param_field_def("s32 testingVar2").expect("parses"),
        "testingVar2",
        None,
        ParamFieldType::s32,
    )
}

#[test]
fn simple_f() {
    assert_def(
        parse_param_field_def("f32 ｇradFactor").expect("parses"),
        "ｇradFactor",
        None,
        ParamFieldType::fp32,
    )
}

#[test]
fn simple_bitsize() {
    assert_def(
        parse_param_field_def("u32 testingVar:3").expect("parses"),
        "testingVar",
        None,
        ParamFieldType::u32 { bit_size: Some(3) },
    )
}

#[test]
#[should_panic]
fn simple_bitsize_s() {
    parse_param_field_def("s32 testingVar:3").expect("parses");
}

#[test]
fn simple_default() {
    assert_def(
        parse_param_field_def("u32 testingVar = -3.0").expect("parses"),
        "testingVar",
        Some(-3.0),
        ParamFieldType::u32 { bit_size: None },
    )
}

#[test]
fn simple_default_s() {
    assert_def(
        parse_param_field_def("s32 testingVar3 = -3.0").expect("parses"),
        "testingVar3",
        Some(-3.0),
        ParamFieldType::s32,
    )
}

#[test]
fn simple_default_bitsize() {
    assert_def(
        parse_param_field_def("u32 testingVar:3 = 0").expect("parses"),
        "testingVar",
        Some(0.0),
        ParamFieldType::u32 { bit_size: Some(3) },
    )
}

#[test]
#[should_panic]
fn simple_default_bitsize_s() {
    parse_param_field_def("s32 testingVar:3 = 0").expect("parses");
}

#[test]
fn fixstr() {
    assert_def(
        parse_param_field_def("fixstr texName_00[16]").expect("parses"),
        "texName_00",
        None,
        ParamFieldType::fixstr { length: 16 },
    )
}

#[test]
fn fixstrw() {
    assert_def(
        parse_param_field_def("fixstrW texName_00[16]").expect("parses"),
        "texName_00",
        None,
        ParamFieldType::fixstrW { length: 16 },
    )
}

#[test]
fn every_plain_type_keyword() {
    let cases = [
        ("s8", ParamFieldType::s8),
        ("u8", ParamFieldType::u8 { bit_size: None }),
        ("s16", ParamFieldType::s16),
        ("u16", ParamFieldType::u16 { bit_size: None }),
        ("s32", ParamFieldType::s32),
        ("u32", ParamFieldType::u32 { bit_size: None }),
        ("f32", ParamFieldType::fp32),
        ("f64", ParamFieldType::fp64),
        ("a32", ParamFieldType::a32),
        ("angle32", ParamFieldType::a32),
        ("b32", ParamFieldType::b32),
    ];
    for (keyword, ty) in cases {
        let line = format!("{} someField", keyword);
        assert_def(parse_param_field_def(&line).expect("parses"), "someField", None, ty);
    }
}

#[test]
fn bit_sizes_on_unsigned_types() {
    assert_def(
        parse_param_field_def("u8 flag:1").expect("parses"),
        "flag",
        None,
        ParamFieldType::u8 { bit_size: Some(1) },
    );
    assert_def(
        parse_param_field_def("u16 half:16").expect("parses"),
        "half",
        None,
        ParamFieldType::u16 { bit_size: Some(16) },
    );
}

#[test]
fn bit_size_error_spans_the_suffix() {
    match parse_param_field_def("s32 testingVar:3") {
        Err(DefParseError::BitSizeUnsupported(span)) => {
            assert_eq!(span, ErrSpan { start: 14, end: 16 })
        }
        other => panic!("unexpected {:?}", other),
    }
}

#[test]
fn unrecognized_type_names_its_token() {
    match parse_param_field_def("u64 bigValue") {
        Err(DefParseError::UnrecognizedType { token, span }) => {
            assert_eq!(token, "u64");
            assert_eq!(span, ErrSpan { start: 0, end: 3 });
        }
        other => panic!("unexpected {:?}", other),
    }
}

#[test]
fn syntax_errors_point_at_the_offending_byte() {
    let cases = [
        ("", 0),
        ("u32", 3),
        ("   ", 3),
        ("u32 x junk", 6),
        ("u32 x:", 6),
        ("u32 x = ", 8),
        ("u32 x = 1.5 more", 12),
        ("fixstr name", 11),
        ("fixstr name[16] = 1", 16),
        ("fixstrW name[16]:3", 16),
        ("dummy8 pad[4", 12),
        ("f32 ｇradFactor = x", 19),
    ];
    for (line, at) in cases {
        match parse_param_field_def(line) {
            Err(DefParseError::Syntax(span)) => {
                assert_eq!(span, ErrSpan { start: at, end: at }, "line {:?}", line)
            }
            other => panic!("unexpected {:?} for {:?}", other, line),
        }
    }
}

#[test]
fn numbers_too_large_are_errors() {
    match parse_param_field_def("u8 narrow:256") {
        Err(DefParseError::NumberTooLarge(span)) => assert_eq!(span, ErrSpan { start: 10, end: 13 }),
        other => panic!("unexpected {:?}", other),
    }
    match parse_param_field_def("dummy8 pad:300") {
        Err(DefParseError::NumberTooLarge(span)) => assert_eq!(span, ErrSpan { start: 11, end: 14 }),
        other => panic!("unexpected {:?}", other),
    }
    match parse_param_field_def("fixstr name[99999999999999999999999]") {
        Err(DefParseError::NumberTooLarge(span)) => assert_eq!(span, ErrSpan { start: 12, end: 35 }),
        other => panic!("unexpected {:?}", other),
    }
}

#[test]
fn largest_bit_size_is_accepted() {
    assert_def(
        parse_param_field_def("u32 wide:255").expect("parses"),
        "wide",
        None,
        ParamFieldType::u32 { bit_size: Some(255) },
    );
}

#[test]
fn dummy_without_length_is_one_byte() {
    assert_def(
        parse_param_field_def("dummy8 pad").expect("parses"),
        "pad",
        None,
        ParamFieldType::dummy8 { length: None },
    );
}

#[test]
fn dummy_bits_with_default() {
    assert_def(
        parse_param_field_def("dummy8 pad:3=0").expect("parses"),
        "pad",
        Some(0.0),
        ParamFieldType::dummy8 { length: Some(DummyType::Bits(3)) },
    );
}

#[test]
fn default_literal_is_kept_verbatim() {
    let def = parse_param_field_def("f32 scale =  +1.25").expect("parses");
    assert_eq!(def.default_value.as_deref(), Some("+1.25"));
    let def = parse_param_field_def("u8 count = 7.").expect("parses");
    assert_eq!(def.default_value.as_deref(), Some("7."));
}

#[test]
fn non_ascii_name_round_trips() {
    let name = "ｇradFactor_倍率";
    let line = format!("f32 {}", name);
    let def = parse_param_field_def(&line).expect("parses");
    assert_eq!(def.name.as_bytes(), name.as_bytes());
}

#[test]
fn real_definition_lines_all_parse() {
    let lines = [
        "s32 iconId = -1",
        "u8 disableParam_NT:1",
        "dummy8 disableParamReserve1:7",
        "dummy8 disableParamReserve2[3]",
        "f32 weight = 1",
        "u16 sortGroupId = 255",
        "fixstrW paramdexName[32]",
        "fixstr reserve_last[32]",
        "angle32 rotY",
        "b32 isEnable = 0",
        "u32 equipModelId",
        "f64 timeScale",
        "s8 priority",
        "s16 offset",
        "u8 isDeactivate:1 = 0",
    ];
    for line in lines {
        assert!(parse_param_field_def(line).is_ok(), "line {:?}", line);
    }
}

#[test]
fn whitespace_around_line_is_accepted() {
    assert_def(
        parse_param_field_def("  u32 x  ").expect("parses"),
        "x",
        None,
        ParamFieldType::u32 { bit_size: None },
    );
    assert_def(
        parse_param_field_def("\tu32 x = 1 ").expect("parses"),
        "x",
        Some(1.0),
        ParamFieldType::u32 { bit_size: None },
    );
    assert_def(
        parse_param_field_def("fixstr n[4] ").expect("parses"),
        "n",
        None,
        ParamFieldType::fixstr { length: 4 },
    );
    match parse_param_field_def("  u64 v") {
        Err(DefParseError::UnrecognizedType { token, span }) => {
            assert_eq!(token, "u64");
            assert_eq!(span, ErrSpan { start: 2, end: 5 });
        }
        other => panic!("unexpected {:?}", other),
    }
}

#[test]
fn dummy_bytes_with_default_and_whitespace() {
    assert_def(
        parse_param_field_def("dummy8 pad[2] = 5  ").expect("parses"),
        "pad",
        Some(5.0),
        ParamFieldType::dummy8 { length: Some(DummyType::Bytes(2)) },
    );
}
