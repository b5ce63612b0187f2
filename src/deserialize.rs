//! Building a [`ParamDef`](crate::ParamDef) from a `PARAMDEF` XML document.
//!
//! The document is read by `roxmltree` into an [`XmlNode`] tree; everything
//! after that is worked out here: the root check, the required header values,
//! and each field's definition line and metadata.

pub mod field_def_parse;

pub use field_def_parse::DefParseError;

use vstd::prelude::*;
use crate::{EditFlags, ParamDef, ParamDefView, ParamField, ParamFieldView, ParamdefEndian, ParamdefFormat, text_opt};
use field_def_parse::{
    chars_of, field_def_of, in_class, match_at, parse_param_field_def, parse_uint, scan, decimal_value,
    word_is, CharClass, DefParseErrorView,
};

verus! {

/// `roxmltree::Error`, the refusal of a text that is not well-formed XML,
/// carried as it is.
#[verifier::external_type_specification]
#[verifier::external_body]
pub struct ExXmlError(roxmltree::Error);

/// `roxmltree::Node`, a node of a parsed document, read only by [`node_tree`].
#[verifier::external_type_specification]
#[verifier::external_body]
pub struct ExXmlNode<'a, 'input: 'a>(roxmltree::Node<'a, 'input>);

/// One node of an XML document: its kind, tag, text, attributes (local
/// name and value, in document order) and children in document order.
///
/// `text` is the element's first child when that is text (a text or comment
/// node's own text); `tag` is empty for nodes other than elements.
#[derive(Debug)]
pub struct XmlNode {
    pub is_element: bool,
    pub tag: String,
    pub text: Option<String>,
    pub attributes: Vec<(String, String)>,
    pub children: Vec<XmlNode>,
}

/// The tree that `roxmltree` reads from a document, rooted at its root
/// element, or `None` where the text is not well-formed XML.
pub uninterp spec fn xml_tree_of(s: Seq<char>) -> Option<XmlNode>;

/// Relies on `roxmltree::Node`'s `is_element`, `tag_name`, `text`,
/// `attributes` and `children`, and on `Attribute`'s `name` and `value`:
/// copies a node and everything under it.
#[verifier::external_body]
fn node_tree(n: roxmltree::Node) -> XmlNode {
    XmlNode {
        is_element: n.is_element(),
        tag: n.tag_name().name().to_string(),
        text: n.text().map(|t| t.to_string()),
        attributes: n.attributes().map(|a| (a.name().to_string(), a.value().to_string())).collect(),
        children: n.children().map(node_tree).collect(),
    }
}

/// Relies on `roxmltree::Document::parse`: the same text always gives the
/// same tree, or the same refusal.
#[verifier::external_body]
fn parse_xml(input: &str) -> (r: Result<XmlNode, roxmltree::Error>)
    ensures
        r is Ok <==> xml_tree_of(input@) is Some,
        r is Ok ==> r->Ok_0 == xml_tree_of(input@)->Some_0,
{
    let doc = roxmltree::Document::parse(input)?;
    Ok(node_tree(doc.root_element()))
}

/// Why a document could not be turned into a [`ParamDef`].
#[derive(Debug)]
pub enum ParamdefDeserializeError {
    /// The text is not well-formed XML.
    XmlParsing(roxmltree::Error),
    /// A header element has no text.
    XmlBlankElement(String),
    /// This text should be an unsigned integer and is not one that fits.
    XmlParsingNumber(String),
    /// This text should be `true` or `false`.
    XmlParsingBool(String),
    /// A required element or attribute is missing, or the root is wrong.
    MissingParamData(String),
    /// A field's definition line is rejected.
    ParsingDefString(DefParseError),
}

/// Mathematical value of a [`ParamdefDeserializeError`].
pub enum DeserializeErrorView {
    XmlParsing,
    XmlBlankElement(Seq<char>),
    XmlParsingNumber(Seq<char>),
    XmlParsingBool(Seq<char>),
    MissingParamData(Seq<char>),
    ParsingDefString(DefParseErrorView),
}

impl View for ParamdefDeserializeError {
    type V = DeserializeErrorView;

    open spec fn view(&self) -> DeserializeErrorView {
        match self {
            ParamdefDeserializeError::XmlParsing(_) => DeserializeErrorView::XmlParsing,
            ParamdefDeserializeError::XmlBlankElement(t) => DeserializeErrorView::XmlBlankElement(t@),
            ParamdefDeserializeError::XmlParsingNumber(t) => DeserializeErrorView::XmlParsingNumber(t@),
            ParamdefDeserializeError::XmlParsingBool(t) => DeserializeErrorView::XmlParsingBool(t@),
            ParamdefDeserializeError::MissingParamData(t) => DeserializeErrorView::MissingParamData(t@),
            ParamdefDeserializeError::ParsingDefString(e) => DeserializeErrorView::ParsingDefString(e@),
        }
    }
}

/// Text values keyed by element name; a later entry for a name wins.
///
/// Kept in a `Vec` with a lookup from the end rather than in a `HashMap`:
/// with `String` keys, vstd's `HashMap` specification gives no usable facts
/// about lookups, and here every lookup is proved.
pub struct ConfigMap {
    entries: Vec<(String, String)>,
}

pub open spec fn entries_map(es: Seq<(String, String)>) -> Map<Seq<char>, Seq<char>>
    decreases es.len(),
{
    if es.len() == 0 {
        Map::empty()
    } else {
        entries_map(es.drop_last()).insert(es.last().0@, es.last().1@)
    }
}

impl View for ConfigMap {
    type V = Map<Seq<char>, Seq<char>>;

    closed spec fn view(&self) -> Map<Seq<char>, Seq<char>> {
        entries_map(self.entries@)
    }
}

impl ConfigMap {
    pub fn new() -> (m: ConfigMap)
        ensures
            m@ == Map::<Seq<char>, Seq<char>>::empty(),
    {
        ConfigMap { entries: Vec::new() }
    }

    pub fn insert(&mut self, key: String, value: String)
        ensures
            final(self)@ == old(self)@.insert(key@, value@),
    {
        self.entries.push((key, value));
        assert(self.entries@.drop_last() =~= old(self).entries@);
    }
}

/// The value under `key`, or the error that names the missing key.
pub open spec fn required(m: Map<Seq<char>, Seq<char>>, key: Seq<char>) -> Result<Seq<char>, DeserializeErrorView> {
    if m.contains_key(key) {
        Ok(m[key])
    } else {
        Err(DeserializeErrorView::MissingParamData(key))
    }
}

proof fn lemma_entries_lookup(es: Seq<(String, String)>, i: int, key: Seq<char>)
    requires
        0 <= i <= es.len(),
        forall|j: int| i <= j < es.len() ==> (#[trigger] es[j]).0@ != key,
    ensures
        entries_map(es).contains_key(key) == entries_map(es.take(i)).contains_key(key),
        entries_map(es).contains_key(key) ==> entries_map(es)[key] == entries_map(es.take(i))[key],
    decreases es.len() - i,
{
    if i < es.len() {
        lemma_entries_lookup(es.drop_last(), i, key);
        assert(es.drop_last().take(i) =~= es.take(i));
    } else {
        assert(es.take(i) =~= es);
    }
}

/// The value under `key`, if any.
pub open spec fn opt_text(m: Map<Seq<char>, Seq<char>>, key: Seq<char>) -> Option<Seq<char>> {
    if m.contains_key(key) {
        Some(m[key])
    } else {
        None
    }
}

impl ConfigMap {
    /// The value last inserted under `key`.
    pub fn get(&self, key: &str) -> (r: Option<String>)
        ensures
            text_opt(r) == opt_text(self@, key@),
    {
        let k = key.to_owned();
        let mut i = self.entries.len();
        while i > 0
            invariant
                i <= self.entries@.len(),
                k@ == key@,
                forall|j: int| i <= j < self.entries@.len() ==> (#[trigger] self.entries@[j]).0@ != key@,
            decreases i,
        {
            if self.entries[i - 1].0 == k {
                proof {
                    let es = self.entries@;
                    lemma_entries_lookup(es, i as int, key@);
                    assert(es.take(i as int).drop_last() =~= es.take(i - 1));
                }
                return Some(self.entries[i - 1].1.clone());
            }
            i -= 1;
        }
        proof {
            lemma_entries_lookup(self.entries@, 0, key@);
        }
        None
    }
}

/// Looks `key` up in `map`: its value, or a missing-data error naming it.
pub fn get_or_error(map: &ConfigMap, key: &str) -> (r: Result<String, ParamdefDeserializeError>)
    ensures
        match required(map@, key@) {
            Ok(v) => r is Ok && r->Ok_0@ == v,
            Err(e) => r is Err && r->Err_0@ == e,
        },
{
    match map.get(key) {
        Some(v) => Ok(v),
        None => Err(ParamdefDeserializeError::MissingParamData(key.to_owned())),
    }
}

/// The text of an unsigned decimal without its optional `+`.
pub open spec fn unsigned_digits(t: Seq<char>) -> Seq<char> {
    if t.len() > 0 && t[0] == '+' {
        t.drop_first()
    } else {
        t
    }
}

pub open spec fn all_digits(d: Seq<char>) -> bool {
    forall|i: int| 0 <= i < d.len() ==> in_class(#[trigger] d[i], CharClass::Digit)
}

/// An unsigned decimal as `u32::from_str` and `usize::from_str` read it:
/// an optional `+`, then one or more digits, at most `limit`.
pub open spec fn parse_unsigned(t: Seq<char>, limit: nat) -> Option<nat> {
    let d = unsigned_digits(t);
    if d.len() > 0 && all_digits(d) && decimal_value(d) <= limit {
        Some(decimal_value(d))
    } else {
        None
    }
}

fn parse_unsigned_exec(text: &str, limit: u64) -> (r: Option<u64>)
    requires
        limit >= 9,
    ensures
        match parse_unsigned(text@, limit as nat) {
            Some(v) => r == Some(v as u64),
            None => r is None,
        },
{
    let s = chars_of(text);
    let len = s.len();
    let start: usize = if len > 0 && s[0] == '+' {
        1
    } else {
        0
    };
    let ghost d = s@.subrange(start as int, len as int);
    assert(d =~= unsigned_digits(text@));
    if start == len {
        return None;
    }
    let e = scan(&s, start, CharClass::Digit);
    if e != len {
        proof {
            field_def_parse::lemma_run_stop(s@, start as int, CharClass::Digit);
            assert(d[e - start] == s@[e as int]);
        }
        assert(!all_digits(d));
        return None;
    }
    assert forall|k: int| start <= k < len implies in_class(#[trigger] s@[k], CharClass::Digit) by {
        field_def_parse::lemma_run_all(s@, start as int, k, CharClass::Digit);
    }
    assert forall|i: int| 0 <= i < d.len() implies in_class(#[trigger] d[i], CharClass::Digit) by {
        assert(d[i] == s@[start + i]);
    }
    parse_uint(&s, start, len, limit)
}

/// `true` and `false`, as `bool::from_str` reads them.
pub open spec fn parse_flag(t: Seq<char>) -> Option<bool> {
    if t == seq!['t', 'r', 'u', 'e'] {
        Some(true)
    } else if t == seq!['f', 'a', 'l', 's', 'e'] {
        Some(false)
    } else {
        None
    }
}

fn parse_flag_exec(text: &str) -> (r: Option<bool>)
    ensures
        r == parse_flag(text@),
{
    let s = chars_of(text);
    let len = s.len();
    assert(s@.subrange(0, len as int) =~= s@);
    if word_is(&s, len, &['t', 'r', 'u', 'e']) {
        Some(true)
    } else if word_is(&s, len, &['f', 'a', 'l', 's', 'e']) {
        Some(false)
    } else {
        None
    }
}

/// Whether `w` occurs in `t`.
pub open spec fn contains_word(t: Seq<char>, w: Seq<char>) -> bool {
    exists|i: int| 0 <= i && i + w.len() <= t.len() && #[trigger] t.subrange(i, i + w.len()) == w
}

fn contains_exec(s: &Vec<char>, w: &[char]) -> (r: bool)
    ensures
        r == contains_word(s@, w@),
{
    let len = s.len();
    let mut i: usize = 0;
    loop
        invariant
            len == s@.len(),
            i <= len,
            forall|j: int| 0 <= j < i ==> !(j + w@.len() <= s@.len() && #[trigger] s@.subrange(j, j + w@.len()) == w@),
        decreases len - i,
    {
        if match_at(s, i, w) {
            return true;
        }
        if i == len {
            return false;
        }
        i += 1;
    }
}

/// Editor flags written as free text: `Wrap` and `Lock` anywhere in it.
pub open spec fn edit_flags_of(t: Seq<char>) -> EditFlags {
    EditFlags {
        wrap: contains_word(t, seq!['W', 'r', 'a', 'p']),
        lock: contains_word(t, seq!['L', 'o', 'c', 'k']),
    }
}

impl EditFlags {
    /// Reads the flags from an `EditFlags` element's text.
    pub fn from_text(text: &str) -> (r: EditFlags)
        ensures
            r == edit_flags_of(text@),
    {
        let s = chars_of(text);
        EditFlags { wrap: contains_exec(&s, &['W', 'r', 'a', 'p']), lock: contains_exec(&s, &['L', 'o', 'c', 'k']) }
    }
}

/// Text of each element child that has some, by tag; a later one wins.
pub open spec fn field_config(cs: Seq<XmlNode>) -> Map<Seq<char>, Seq<char>>
    decreases cs.len(),
{
    if cs.len() == 0 {
        Map::empty()
    } else {
        let c = cs.last();
        if c.is_element && c.text is Some {
            field_config(cs.drop_last()).insert(c.tag@, c.text->Some_0@)
        } else {
            field_config(cs.drop_last())
        }
    }
}

/// The value of the first attribute whose local name is `name`, as
/// `roxmltree::Node::attribute` picks it.
pub open spec fn attr_of(attrs: Seq<(String, String)>, name: Seq<char>) -> Option<Seq<char>>
    decreases attrs.len(),
{
    if attrs.len() == 0 {
        None
    } else if attrs[0].0@ == name {
        Some(attrs[0].1@)
    } else {
        attr_of(attrs.drop_first(), name)
    }
}

fn find_attr<'a>(attrs: &'a Vec<(String, String)>, name: &str) -> (r: Option<&'a String>)
    ensures
        match r {
            Some(v) => attr_of(attrs@, name@) == Some(v@),
            None => attr_of(attrs@, name@) is None,
        },
{
    let k = name.to_owned();
    let mut i: usize = 0;
    assert(attrs@.skip(0) =~= attrs@);
    while i < attrs.len()
        invariant
            i <= attrs@.len(),
            k@ == name@,
            attr_of(attrs@, name@) == attr_of(attrs@.skip(i as int), name@),
        decreases attrs@.len() - i,
    {
        assert(attrs@.skip(i as int)[0] == attrs@[i as int]);
        if attrs[i].0 == k {
            return Some(&attrs[i].1);
        }
        assert(attrs@.skip(i as int).drop_first() =~= attrs@.skip(i + 1));
        i += 1;
    }
    assert(attrs@.skip(i as int).len() == 0);
    None
}

/// The field that a `Field` element describes.
pub open spec fn field_of(n: XmlNode) -> Result<ParamFieldView, DeserializeErrorView> {
    match attr_of(n.attributes@, "Def"@) {
        None => Err(DeserializeErrorView::MissingParamData("Field Def"@)),
        Some(a) => match field_def_of(a) {
            Err(e) => Err(DeserializeErrorView::ParsingDefString(e)),
            Ok(d) => {
                let m = field_config(n.children@);
                let sort = opt_text(m, "SortID"@);
                if sort is Some && parse_unsigned(sort->Some_0, usize::MAX as nat) is None {
                    Err(DeserializeErrorView::XmlParsingNumber(sort->Some_0))
                } else {
                    Ok(
                        ParamFieldView {
                            field_def: d,
                            display_name: opt_text(m, "DisplayName"@),
                            enum_tdf: opt_text(m, "Enum"@),
                            description: opt_text(m, "Description"@),
                            printf_format: opt_text(m, "DisplayFormat"@),
                            edit_flags: match opt_text(m, "EditFlags"@) {
                                Some(t) => Some(edit_flags_of(t)),
                                None => None,
                            },
                            minimum: opt_text(m, "Minimum"@),
                            maximum: opt_text(m, "Maximum"@),
                            increment: opt_text(m, "Increment"@),
                            sort_id: match sort {
                                Some(t) => Some(parse_unsigned(t, usize::MAX as nat)->Some_0 as usize),
                                None => None,
                            },
                        },
                    )
                }
            },
        },
    }
}

/// The fields of the element children, in document order; the first
/// rejected one decides.
pub open spec fn fields_of(cs: Seq<XmlNode>) -> Result<Seq<ParamFieldView>, DeserializeErrorView>
    decreases cs.len(),
{
    if cs.len() == 0 {
        Ok(Seq::empty())
    } else {
        match fields_of(cs.drop_last()) {
            Err(e) => Err(e),
            Ok(fs) => if !cs.last().is_element {
                Ok(fs)
            } else {
                match field_of(cs.last()) {
                    Err(e) => Err(e),
                    Ok(f) => Ok(fs.push(f)),
                }
            },
        }
    }
}

/// The root's element children: the header texts by tag, and the last
/// `Fields` container. A header element without text is rejected.
pub open spec fn root_scan(cs: Seq<XmlNode>) -> Result<(Map<Seq<char>, Seq<char>>, Option<XmlNode>), DeserializeErrorView>
    decreases cs.len(),
{
    if cs.len() == 0 {
        Ok((Map::empty(), None))
    } else {
        match root_scan(cs.drop_last()) {
            Err(e) => Err(e),
            Ok((m, f)) => {
                let c = cs.last();
                if !c.is_element {
                    Ok((m, f))
                } else if c.tag@ == "Fields"@ {
                    Ok((m, Some(c)))
                } else if c.text is None {
                    Err(DeserializeErrorView::XmlBlankElement(c.tag@))
                } else {
                    Ok((m.insert(c.tag@, c.text->Some_0@), f))
                }
            },
        }
    }
}

/// The definition built from the header values and the `Fields` container.
pub open spec fn assemble(m: Map<Seq<char>, Seq<char>>, fields: XmlNode) -> Result<ParamDefView, DeserializeErrorView> {
    match required(m, "ParamType"@) {
        Err(e) => Err(e),
        Ok(pt) => match required(m, "DataVersion"@) {
            Err(e) => Err(e),
            Ok(dv) => match parse_unsigned(dv, u32::MAX as nat) {
                None => Err(DeserializeErrorView::XmlParsingNumber(dv)),
                Some(dvn) => match required(m, "BigEndian"@) {
                    Err(e) => Err(e),
                    Ok(be) => match parse_flag(be) {
                        None => Err(DeserializeErrorView::XmlParsingBool(be)),
                        Some(big) => match required(m, "FormatVersion"@) {
                            Err(e) => Err(e),
                            Ok(fv) => match parse_unsigned(fv, u32::MAX as nat) {
                                None => Err(DeserializeErrorView::XmlParsingNumber(fv)),
                                Some(fvn) => match fields_of(fields.children@) {
                                    Err(e) => Err(e),
                                    Ok(fs) => Ok(
                                        ParamDefView {
                                            param_type: pt,
                                            data_version: dvn as u32,
                                            endian: if big {
                                                ParamdefEndian::Big
                                            } else {
                                                ParamdefEndian::Little
                                            },
                                            string_format: if big {
                                                ParamdefFormat::UTF16
                                            } else {
                                                ParamdefFormat::ShiftJIS
                                            },
                                            format_version: fvn as u32,
                                            fields: fs,
                                        },
                                    ),
                                },
                            },
                        },
                    },
                },
            },
        },
    }
}

/// The definition that a document tree describes.
pub open spec fn def_of_tree(root: XmlNode) -> Result<ParamDefView, DeserializeErrorView> {
    if root.tag@ != "PARAMDEF"@ {
        Err(DeserializeErrorView::MissingParamData("Invalid root element"@))
    } else {
        match root_scan(root.children@) {
            Err(e) => Err(e),
            Ok((m, None)) => Err(DeserializeErrorView::MissingParamData("Fields"@)),
            Ok((m, Some(f))) => assemble(m, f),
        }
    }
}

pub open spec fn field_result_is(r: Result<ParamField, ParamdefDeserializeError>, v: Result<ParamFieldView, DeserializeErrorView>) -> bool {
    match (r, v) {
        (Ok(d), Ok(dv)) => d@ == dv,
        (Err(e), Err(ev)) => e@ == ev,
        _ => false,
    }
}

pub open spec fn def_result_is(r: Result<ParamDef, ParamdefDeserializeError>, v: Result<ParamDefView, DeserializeErrorView>) -> bool {
    match (r, v) {
        (Ok(d), Ok(dv)) => d@ == dv,
        (Err(e), Err(ev)) => e@ == ev,
        _ => false,
    }
}

fn field_config_exec(cs: &Vec<XmlNode>) -> (m: ConfigMap)
    ensures
        m@ == field_config(cs@),
{
    let mut m = ConfigMap::new();
    let mut i: usize = 0;
    assert(cs@.take(0) =~= Seq::<XmlNode>::empty());
    while i < cs.len()
        invariant
            i <= cs@.len(),
            m@ == field_config(cs@.take(i as int)),
        decreases cs@.len() - i,
    {
        let c = &cs[i];
        assert(cs@.take(i + 1).drop_last() =~= cs@.take(i as int));
        if c.is_element {
            match &c.text {
                Some(t) => m.insert(c.tag.clone(), t.clone()),
                None => {},
            }
        }
        i += 1;
    }
    assert(cs@.take(cs@.len() as int) =~= cs@);
    m
}

/// Reads one `Field` element: its definition line and its metadata.
pub fn parse_field_node(field_node: &XmlNode) -> (r: Result<ParamField, ParamdefDeserializeError>)
    ensures
        field_result_is(r, field_of(*field_node)),
{
    let attr = match find_attr(&field_node.attributes, "Def") {
        None => return Err(ParamdefDeserializeError::MissingParamData("Field Def".to_owned())),
        Some(a) => a,
    };
    let field_def = match parse_param_field_def(attr.as_str()) {
        Err(e) => return Err(ParamdefDeserializeError::ParsingDefString(e)),
        Ok(d) => d,
    };
    let config = field_config_exec(&field_node.children);
    let sort_id = match config.get("SortID") {
        None => None,
        Some(t) => match parse_unsigned_exec(t.as_str(), usize::MAX as u64) {
            None => return Err(ParamdefDeserializeError::XmlParsingNumber(t)),
            Some(v) => Some(v as usize),
        },
    };
    let edit_flags = match config.get("EditFlags") {
        None => None,
        Some(t) => Some(EditFlags::from_text(t.as_str())),
    };
    Ok(
        ParamField {
            field_def,
            display_name: config.get("DisplayName"),
            enum_tdf: config.get("Enum"),
            description: config.get("Description"),
            printf_format: config.get("DisplayFormat"),
            edit_flags,
            minimum: config.get("Minimum"),
            maximum: config.get("Maximum"),
            increment: config.get("Increment"),
            sort_id,
        },
    )
}

fn fields_exec(cs: &Vec<XmlNode>) -> (r: Result<Vec<ParamField>, ParamdefDeserializeError>)
    ensures
        match (r, fields_of(cs@)) {
            (Ok(fs), Ok(v)) => fs@.map_values(|f: ParamField| f@) == v,
            (Err(e), Err(ev)) => e@ == ev,
            _ => false,
        },
{
    let mut fields: Vec<ParamField> = Vec::new();
    let mut i: usize = 0;
    assert(cs@.take(0) =~= Seq::<XmlNode>::empty());
    assert(fields@.map_values(|f: ParamField| f@) =~= Seq::<ParamFieldView>::empty());
    while i < cs.len()
        invariant
            i <= cs@.len(),
            fields_of(cs@.take(i as int)) == Ok::<Seq<ParamFieldView>, DeserializeErrorView>(
                fields@.map_values(|f: ParamField| f@),
            ),
        decreases cs@.len() - i,
    {
        let c = &cs[i];
        assert(cs@.take(i + 1).drop_last() =~= cs@.take(i as int));
        if c.is_element {
            match parse_field_node(c) {
                Err(e) => {
                    proof {
                        lemma_fields_error_stays(cs@, i + 1);
                    }
                    return Err(e);
                },
                Ok(f) => {
                    let ghost before = fields@;
                    fields.push(f);
                    assert(fields@.map_values(|f: ParamField| f@) =~= before.map_values(|f: ParamField| f@).push(
                        f@,
                    ));
                },
            }
        }
        i += 1;
    }
    assert(cs@.take(cs@.len() as int) =~= cs@);
    Ok(fields)
}

/// Once a prefix of the children is rejected, the whole list is, with the same error.
proof fn lemma_fields_error_stays(cs: Seq<XmlNode>, i: int)
    requires
        0 <= i <= cs.len(),
        fields_of(cs.take(i)) is Err,
    ensures
        fields_of(cs) == fields_of(cs.take(i)),
    decreases cs.len() - i,
{
    if i < cs.len() {
        assert(cs.drop_last().take(i) =~= cs.take(i));
        lemma_fields_error_stays(cs.drop_last(), i);
    } else {
        assert(cs.take(i) =~= cs);
    }
}

proof fn lemma_root_error_stays(cs: Seq<XmlNode>, i: int)
    requires
        0 <= i <= cs.len(),
        root_scan(cs.take(i)) is Err,
    ensures
        root_scan(cs) == root_scan(cs.take(i)),
    decreases cs.len() - i,
{
    if i < cs.len() {
        assert(cs.drop_last().take(i) =~= cs.take(i));
        lemma_root_error_stays(cs.drop_last(), i);
    } else {
        assert(cs.take(i) =~= cs);
    }
}

/// Builds the definition that a document tree describes.
///
/// The root must be a `PARAMDEF` element. Its element children other than
/// `Fields` are header values and must have text; `ParamType`, `DataVersion`,
/// `BigEndian` and `FormatVersion` are required, and `BigEndian` gives both
/// the byte order and the string encoding. Each element in `Fields` is a
/// field, kept in document order. The first problem found is the error.
pub fn deserialize_tree(root: &XmlNode) -> (r: Result<ParamDef, ParamdefDeserializeError>)
    ensures
        def_result_is(r, def_of_tree(*root)),
{
    if !(root.tag == "PARAMDEF".to_owned()) {
        return Err(ParamdefDeserializeError::MissingParamData("Invalid root element".to_owned()));
    }
    let cs = &root.children;
    let mut config = ConfigMap::new();
    let mut fields_idx: Option<usize> = None;
    let mut i: usize = 0;
    assert(cs@.take(0) =~= Seq::<XmlNode>::empty());
    while i < cs.len()
        invariant
            cs@ == root.children@,
            root.tag@ == "PARAMDEF"@,
            i <= cs@.len(),
            root_scan(cs@.take(i as int)) is Ok,
            config@ == root_scan(cs@.take(i as int))->Ok_0.0,
            match fields_idx {
                Some(j) => j < i && root_scan(cs@.take(i as int))->Ok_0.1 == Some(cs@[j as int]),
                None => root_scan(cs@.take(i as int))->Ok_0.1 is None,
            },
        decreases cs@.len() - i,
    {
        let c = &cs[i];
        assert(cs@.take(i + 1).drop_last() =~= cs@.take(i as int));
        if c.is_element {
            if c.tag == "Fields".to_owned() {
                fields_idx = Some(i);
            } else {
                match &c.text {
                    None => {
                        proof {
                            assert(cs@.take(i + 1).last() == cs@[i as int]);
                            assert(root_scan(cs@.take(i + 1)) == Err::<
                                (Map<Seq<char>, Seq<char>>, Option<XmlNode>),
                                DeserializeErrorView,
                            >(DeserializeErrorView::XmlBlankElement(c.tag@)));
                            lemma_root_error_stays(cs@, i + 1);
                        }
                        return Err(ParamdefDeserializeError::XmlBlankElement(c.tag.clone()));
                    },
                    Some(t) => config.insert(c.tag.clone(), t.clone()),
                }
            }
        }
        i += 1;
    }
    assert(cs@.take(cs@.len() as int) =~= cs@);
    let fields_node = match fields_idx {
        None => return Err(ParamdefDeserializeError::MissingParamData("Fields".to_owned())),
        Some(j) => &cs[j],
    };
    let param_type = match get_or_error(&config, "ParamType") {
        Err(e) => return Err(e),
        Ok(v) => v,
    };
    let dv = match get_or_error(&config, "DataVersion") {
        Err(e) => return Err(e),
        Ok(v) => v,
    };
    let data_version = match parse_unsigned_exec(dv.as_str(), u32::MAX as u64) {
        None => return Err(ParamdefDeserializeError::XmlParsingNumber(dv)),
        Some(v) => v as u32,
    };
    let be = match get_or_error(&config, "BigEndian") {
        Err(e) => return Err(e),
        Ok(v) => v,
    };
    let big = match parse_flag_exec(be.as_str()) {
        None => return Err(ParamdefDeserializeError::XmlParsingBool(be)),
        Some(b) => b,
    };
    let fv = match get_or_error(&config, "FormatVersion") {
        Err(e) => return Err(e),
        Ok(v) => v,
    };
    let format_version = match parse_unsigned_exec(fv.as_str(), u32::MAX as u64) {
        None => return Err(ParamdefDeserializeError::XmlParsingNumber(fv)),
        Some(v) => v as u32,
    };
    let fields = match fields_exec(&fields_node.children) {
        Err(e) => return Err(e),
        Ok(fs) => fs,
    };
    Ok(
        ParamDef {
            param_type,
            data_version,
            endian: ParamdefEndian::from_flag(big),
            string_format: ParamdefFormat::from_flag(big),
            format_version,
            fields,
        },
    )
}

/// The definition that a document's text describes.
pub open spec fn def_of_text(s: Seq<char>) -> Result<ParamDefView, DeserializeErrorView> {
    match xml_tree_of(s) {
        None => Err(DeserializeErrorView::XmlParsing),
        Some(t) => def_of_tree(t),
    }
}

/// Parses a `PARAMDEF` XML document into the definition it describes.
///
/// Text that is not well-formed XML gives [`ParamdefDeserializeError::XmlParsing`];
/// otherwise the result is that of [`deserialize_tree`] on the document's tree.
pub fn deserialize_def(input: &str) -> (r: Result<ParamDef, ParamdefDeserializeError>)
    ensures
        def_result_is(r, def_of_text(input@)),
{
    match parse_xml(input) {
        Err(e) => Err(ParamdefDeserializeError::XmlParsing(e)),
        Ok(root) => deserialize_tree(&root),
    }
}

impl std::str::FromStr for ParamDef {
    type Err = ParamdefDeserializeError;

    fn from_str(s: &str) -> Result<ParamDef, ParamdefDeserializeError> {
        deserialize_def(s)
    }
}

impl std::str::FromStr for crate::ParamFieldDef {
    type Err = DefParseError;

    fn from_str(s: &str) -> Result<crate::ParamFieldDef, DefParseError> {
        parse_param_field_def(s)
    }
}

/// A document whose root element is not `PARAMDEF` is rejected for that
/// alone, before anything under the root is looked at.
pub proof fn lemma_wrong_root_rejected(root: XmlNode)
    requires
        root.tag@ != "PARAMDEF"@,
    ensures
        def_of_tree(root) == Err::<ParamDefView, DeserializeErrorView>(
            DeserializeErrorView::MissingParamData("Invalid root element"@),
        ),
{
}

proof fn lemma_root_scan_no_fields(cs: Seq<XmlNode>)
    requires
        forall|i: int|
            0 <= i < cs.len() && (#[trigger] cs[i]).is_element ==> cs[i].tag@ != "Fields"@ && cs[i].text is Some,
    ensures
        root_scan(cs) is Ok,
        root_scan(cs)->Ok_0.1 is None,
    decreases cs.len(),
{
    if cs.len() > 0 {
        lemma_root_scan_no_fields(cs.drop_last());
        assert(cs.last() == cs[cs.len() - 1]);
    }
}

/// A `PARAMDEF` document without a `Fields` container, whose header
/// elements all have text, is rejected with the missing-data error that
/// names `Fields`: no partial definition comes out.
pub proof fn lemma_missing_fields_rejected(root: XmlNode)
    requires
        root.tag@ == "PARAMDEF"@,
        forall|i: int|
            0 <= i < root.children@.len() && (#[trigger] root.children@[i]).is_element
                ==> root.children@[i].tag@ != "Fields"@ && root.children@[i].text is Some,
    ensures
        def_of_tree(root) == Err::<ParamDefView, DeserializeErrorView>(
            DeserializeErrorView::MissingParamData("Fields"@),
        ),
{
    lemma_root_scan_no_fields(root.children@);
}

/// Reads each document on its own: one result per input, in order, so a
/// rejected document leaves the others' results untouched.
pub fn deserialize_each(inputs: &Vec<String>) -> (r: Vec<Result<ParamDef, ParamdefDeserializeError>>)
    ensures
        r@.len() == inputs@.len(),
        forall|i: int| 0 <= i < r@.len() ==> def_result_is(#[trigger] r@[i], def_of_text(inputs@[i]@)),
{
    let mut results: Vec<Result<ParamDef, ParamdefDeserializeError>> = Vec::new();
    let mut i: usize = 0;
    while i < inputs.len()
        invariant
            i <= inputs@.len(),
            results@.len() == i,
            forall|j: int| 0 <= j < i ==> def_result_is(#[trigger] results@[j], def_of_text(inputs@[j]@)),
        decreases inputs@.len() - i,
    {
        results.push(deserialize_def(inputs[i].as_str()));
        i += 1;
    }
    results
}

/// When the field elements before position `j` all read cleanly and the
/// element at `j` carries a definition line that the line parser rejects
/// with `e`, the fields are rejected with exactly `e`: the offending line's
/// own error, and no partial list of fields.
pub proof fn lemma_first_bad_line_decides(cs: Seq<XmlNode>, j: int, e: DefParseErrorView)
    requires
        0 <= j < cs.len(),
        fields_of(cs.take(j)) is Ok,
        cs[j].is_element,
        attr_of(cs[j].attributes@, "Def"@) is Some,
        field_def_of(attr_of(cs[j].attributes@, "Def"@)->Some_0) == Err::<crate::FieldDefView, DefParseErrorView>(e),
    ensures
        fields_of(cs) == Err::<Seq<ParamFieldView>, DeserializeErrorView>(DeserializeErrorView::ParsingDefString(e)),
{
    assert(cs.take(j + 1).drop_last() =~= cs.take(j));
    assert(cs.take(j + 1).last() == cs[j]);
    lemma_fields_error_stays(cs, j + 1);
}

} // verus!
