use paramdex::deserialize::{
    deserialize_def, deserialize_each, deserialize_tree, get_or_error, parse_field_node, ConfigMap, DefParseError,
    ParamdefDeserializeError, XmlNode,
};
use paramdex::{
    DummyType, EditFlags, ParamFieldType, Paramdex, ParamdefEndian, ParamdefFormat,
};

const DOC: &str = r#"<?xml version="1.0" encoding="utf-8"?>
<PARAMDEF XmlVersion="1">
  <ParamType>EQUIP_PARAM_TEST_ST</ParamType>
  <DataVersion>5</DataVersion>
  <BigEndian>false</BigEndian>
  <Unicode>true</Unicode>
  <FormatVersion>203</FormatVersion>
  <Fields>
    <Field Def="s32 iconId = -1">
      <DisplayName>Icon ID</DisplayName>
      <Description>Icon shown in menus</Description>
      <Minimum>-1</Minimum>
      <Maximum>99999</Maximum>
      <Increment>1</Increment>
      <SortID>100</SortID>
      <EditFlags>Wrap, Lock</EditFlags>
    </Field>
    <!-- padding -->
    <Field Def="dummy8 pad[3]" />
    <Field Def="u8 isEnabled:1">
      <Enum>BOOL_U8</Enum>
      <DisplayFormat>%u</DisplayFormat>
      <EditFlags>Lock</EditFlags>
    </Field>
  </Fields>
</PARAMDEF>
"#;

fn doc_with(header: &str, fields: &str) -> String {
    format!("<PARAMDEF>{}<Fields>{}</Fields></PARAMDEF>", header, fields)
}

const HEADER: &str = "<ParamType>T</ParamType><DataVersion>1</DataVersion><BigEndian>true</BigEndian><FormatVersion>2</FormatVersion>";

#[test]
fn full_document_is_read() {
    let def = deserialize_def(DOC).expect("parses");
    assert_eq!(def.param_type, "EQUIP_PARAM_TEST_ST");
    assert_eq!(def.data_version, 5);
    assert_eq!(def.endian, ParamdefEndian::Little);
    assert_eq!(def.string_format, ParamdefFormat::ShiftJIS);
    assert_eq!(def.format_version, 203);
    assert_eq!(def.fields.len(), 3);

    let icon = &def.fields[0];
    assert_eq!(icon.field_def.name, "iconId");
    assert_eq!(icon.field_def.field_type, ParamFieldType::s32);
    assert_eq!(icon.field_def.default_value.as_deref(), Some("-1"));
    assert_eq!(icon.display_name.as_deref(), Some("Icon ID"));
    assert_eq!(icon.description.as_deref(), Some("Icon shown in menus"));
    assert_eq!(icon.minimum.as_deref(), Some("-1"));
    assert_eq!(icon.maximum.as_deref(), Some("99999"));
    assert_eq!(icon.increment.as_deref(), Some("1"));
    assert_eq!(icon.sort_id, Some(100));
    assert_eq!(icon.edit_flags, Some(EditFlags { wrap: true, lock: true }));
    assert_eq!(icon.enum_tdf, None);

    let pad = &def.fields[1];
    assert_eq!(pad.field_def.field_type, ParamFieldType::dummy8 { length: Some(DummyType::Bytes(3)) });
    assert_eq!(pad.display_name, None);
    assert_eq!(pad.edit_flags, None);
    assert_eq!(pad.sort_id, None);

    let flag = &def.fields[2];
    assert_eq!(flag.field_def.field_type, ParamFieldType::u8 { bit_size: Some(1) });
    assert_eq!(flag.enum_tdf.as_deref(), Some("BOOL_U8"));
    assert_eq!(flag.printf_format.as_deref(), Some("%u"));
    assert_eq!(flag.edit_flags, Some(EditFlags { wrap: false, lock: true }));
}

#[test]
fn big_endian_flag_sets_order_and_encoding() {
    let def = deserialize_def(&doc_with(HEADER, "")).expect("parses");
    assert_eq!(def.endian, ParamdefEndian::Big);
    assert_eq!(def.string_format, ParamdefFormat::UTF16);
    assert_eq!(def.fields.len(), 0);
}

#[test]
fn malformed_xml_is_rejected() {
    assert!(matches!(deserialize_def("<PARAMDEF>"), Err(ParamdefDeserializeError::XmlParsing(_))));
}

#[test]
fn wrong_root_is_rejected() {
    let doc = "<NOTADEF><Fields><Field/></Fields></NOTADEF>";
    match deserialize_def(doc) {
        Err(ParamdefDeserializeError::MissingParamData(m)) => assert_eq!(m, "Invalid root element"),
        other => panic!("unexpected {:?}", other),
    }
}

#[test]
fn missing_fields_is_rejected() {
    let doc = format!("<PARAMDEF>{}</PARAMDEF>", HEADER);
    match deserialize_def(&doc) {
        Err(ParamdefDeserializeError::MissingParamData(m)) => assert_eq!(m, "Fields"),
        other => panic!("unexpected {:?}", other),
    }
}

#[test]
fn blank_header_element_is_rejected() {
    let doc = doc_with("<ParamType></ParamType>", "");
    match deserialize_def(&doc) {
        Err(ParamdefDeserializeError::XmlBlankElement(m)) => assert_eq!(m, "ParamType"),
        other => panic!("unexpected {:?}", other),
    }
}

#[test]
fn missing_header_value_is_named() {
    let doc = doc_with("<ParamType>T</ParamType><BigEndian>true</BigEndian>", "");
    match deserialize_def(&doc) {
        Err(ParamdefDeserializeError::MissingParamData(m)) => assert_eq!(m, "DataVersion"),
        other => panic!("unexpected {:?}", other),
    }
}

#[test]
fn bad_numbers_and_flags_are_rejected() {
    let doc = doc_with("<ParamType>T</ParamType><DataVersion>-1</DataVersion>", "");
    match deserialize_def(&doc) {
        Err(ParamdefDeserializeError::XmlParsingNumber(t)) => assert_eq!(t, "-1"),
        other => panic!("unexpected {:?}", other),
    }
    let doc = doc_with(
        "<ParamType>T</ParamType><DataVersion>4294967296</DataVersion>",
        "",
    );
    assert!(matches!(deserialize_def(&doc), Err(ParamdefDeserializeError::XmlParsingNumber(_))));
    let doc = doc_with(
        "<ParamType>T</ParamType><DataVersion>+4294967295</DataVersion><BigEndian>yes</BigEndian>",
        "",
    );
    match deserialize_def(&doc) {
        Err(ParamdefDeserializeError::XmlParsingBool(t)) => assert_eq!(t, "yes"),
        other => panic!("unexpected {:?}", other),
    }
}

#[test]
fn field_errors_abort_the_document() {
    let doc = doc_with(HEADER, "<Field Def=\"u32 ok\"/><Field/>");
    match deserialize_def(&doc) {
        Err(ParamdefDeserializeError::MissingParamData(m)) => assert_eq!(m, "Field Def"),
        other => panic!("unexpected {:?}", other),
    }
    let doc = doc_with(HEADER, "<Field Def=\"s16 x:2\"/>");
    assert!(matches!(
        deserialize_def(&doc),
        Err(ParamdefDeserializeError::ParsingDefString(DefParseError::BitSizeUnsupported(_)))
    ));
    let doc = doc_with(HEADER, "<Field Def=\"u8 x\"><SortID>many</SortID></Field>");
    match deserialize_def(&doc) {
        Err(ParamdefDeserializeError::XmlParsingNumber(t)) => assert_eq!(t, "many"),
        other => panic!("unexpected {:?}", other),
    }
}

#[test]
fn later_header_element_wins() {
    let doc = doc_with(&format!("{}<ParamType>LATER</ParamType>", HEADER), "");
    assert_eq!(deserialize_def(&doc).expect("parses").param_type, "LATER");
}

fn element(tag: &str, text: Option<&str>, def_attr: Option<&str>, children: Vec<XmlNode>) -> XmlNode {
    XmlNode {
        is_element: true,
        tag: tag.to_string(),
        text: text.map(|t| t.to_string()),
        attributes: def_attr.map(|t| ("Def".to_string(), t.to_string())).into_iter().collect(),
        children,
    }
}

#[test]
fn tree_is_read_without_xml_text() {
    let field = element(
        "Field",
        None,
        Some("fixstrW name[8]"),
        vec![element("SortID", Some("+7"), None, vec![])],
    );
    let root = element(
        "PARAMDEF",
        None,
        None,
        vec![
            element("ParamType", Some("P"), None, vec![]),
            element("DataVersion", Some("3"), None, vec![]),
            element("BigEndian", Some("false"), None, vec![]),
            element("FormatVersion", Some("0"), None, vec![]),
            element("Fields", None, None, vec![field]),
        ],
    );
    let def = deserialize_tree(&root).expect("builds");
    assert_eq!(def.param_type, "P");
    assert_eq!(def.fields[0].field_def.field_type, ParamFieldType::fixstrW { length: 8 });
    assert_eq!(def.fields[0].sort_id, Some(7));
}

#[test]
fn field_node_without_metadata() {
    let node = element("Field", None, Some("f64 ratio = 0.5"), vec![]);
    let field = parse_field_node(&node).expect("parses");
    assert_eq!(field.field_def.field_type, ParamFieldType::fp64);
    assert_eq!(field.field_def.default_value.as_deref(), Some("0.5"));
    assert_eq!(field.minimum, None);
}

#[test]
fn config_map_lookup() {
    let mut map = ConfigMap::new();
    map.insert("A".to_string(), "1".to_string());
    map.insert("A".to_string(), "2".to_string());
    assert_eq!(get_or_error(&map, "A").expect("present"), "2");
    match get_or_error(&map, "B") {
        Err(ParamdefDeserializeError::MissingParamData(k)) => assert_eq!(k, "B"),
        other => panic!("unexpected {:?}", other),
    }
}

#[test]
fn edit_flags_from_text() {
    assert_eq!(EditFlags::from_text("Wrap"), EditFlags { wrap: true, lock: false });
    assert_eq!(EditFlags::from_text("None"), EditFlags { wrap: false, lock: false });
    assert_eq!(EditFlags::from_text("Lock|Wrap"), EditFlags { wrap: true, lock: true });
}

#[test]
fn set_bit_size_on_unsigned() {
    let mut ty = ParamFieldType::u16 { bit_size: None };
    assert!(ty.supports_bit_size());
    ty.set_bit_size(4);
    assert_eq!(ty, ParamFieldType::u16 { bit_size: Some(4) });
    assert!(!ParamFieldType::s16.supports_bit_size());
    assert!(!ParamFieldType::dummy8 { length: None }.supports_bit_size());
}

#[test]
fn registry_keeps_latest_definition() {
    let mut dex = Paramdex::empty();
    assert!(dex.get_param_def("T").is_none());
    let first = deserialize_def(&doc_with(HEADER, "")).expect("parses");
    assert!(dex.insert(first).is_none());
    let second = deserialize_def(&doc_with(HEADER, "<Field Def=\"u8 x\"/>")).expect("parses");
    let replaced = dex.insert(second).expect("replaces");
    assert_eq!(replaced.fields.len(), 0);
    assert_eq!(dex.get_param_def("T").expect("present").fields.len(), 1);
}

#[test]
fn registry_from_documents() {
    let docs = vec![DOC.to_string(), doc_with(HEADER, "")];
    let dex = Paramdex::deserialize_all(&docs).expect("parses");
    assert_eq!(dex.get_param_def("EQUIP_PARAM_TEST_ST").expect("present").fields.len(), 3);
    assert_eq!(dex.get_param_def("T").expect("present").data_version, 1);
    let bad = vec![doc_with(HEADER, ""), "<oops".to_string()];
    assert!(matches!(Paramdex::deserialize_all(&bad), Err(ParamdefDeserializeError::XmlParsing(_))));
}

#[test]
fn each_document_gets_its_own_result() {
    let docs = vec![
        doc_with(HEADER, ""),
        "<oops".to_string(),
        doc_with(HEADER, "<Field Def=\"s8 bad:1\"/>"),
        DOC.to_string(),
    ];
    let results = deserialize_each(&docs);
    assert_eq!(results.len(), 4);
    assert_eq!(results[0].as_ref().expect("parses").param_type, "T");
    assert!(matches!(results[1], Err(ParamdefDeserializeError::XmlParsing(_))));
    assert!(matches!(
        results[2],
        Err(ParamdefDeserializeError::ParsingDefString(DefParseError::BitSizeUnsupported(_)))
    ));
    assert_eq!(results[3].as_ref().expect("parses").fields.len(), 3);
}

#[test]
fn def_is_found_among_other_attributes() {
    let doc = doc_with(HEADER, "<Field Name=\"x\" Def=\"u16 value\" Other=\"y\"/>");
    let def = deserialize_def(&doc).expect("parses");
    assert_eq!(def.fields[0].field_def.name, "value");
    assert_eq!(def.fields[0].field_def.field_type, ParamFieldType::u16 { bit_size: None });
}

#[test]
fn first_bad_line_is_reported_with_its_span() {
    let doc = doc_with(HEADER, "<Field Def=\"u8 a\"/><Field Def=\"u8 b:999\"/><Field Def=\"nope c\"/>");
    match deserialize_def(&doc) {
        Err(ParamdefDeserializeError::ParsingDefString(DefParseError::NumberTooLarge(span))) => {
            assert_eq!((span.start, span.end), (5, 8))
        }
        other => panic!("unexpected {:?}", other),
    }
}
