//! Parameter-definition model for a game's param files, and parsers that
//! build it from a field-definition line and from a `PARAMDEF` XML document.
#![allow(non_camel_case_types)]

pub mod deserialize;

use vstd::prelude::*;
use deserialize::{def_of_text, def_result_is, deserialize_def, DeserializeErrorView, ParamdefDeserializeError};

verus! {

/// The text encoding for strings described by a [`ParamDef`].
#[derive(PartialEq, Eq, Structural, Clone, Copy, Debug)]
pub enum ParamdefFormat {
    UTF16,
    ShiftJIS,
}

/// The byte order of the param data described by a [`ParamDef`].
#[derive(PartialEq, Eq, Structural, Clone, Copy, Debug)]
pub enum ParamdefEndian {
    Little,
    Big,
}

/// Length of a padding field: a byte count or a bit count.
#[derive(PartialEq, Eq, Structural, Clone, Copy, Debug)]
pub enum DummyType {
    /// Padding measured in bytes.
    Bytes(usize),
    /// Padding measured in bits.
    Bits(u8),
}

/// Type of a field in a param row.
///
/// `s*` and `u*` are signed and unsigned integers of the given width. The
/// unsigned ones may be narrowed to a number of bits.
#[derive(PartialEq, Eq, Structural, Clone, Copy, Debug)]
pub enum ParamFieldType {
    /// Signed 8-bit integer.
    s8,
    /// Unsigned 8-bit integer, optionally narrowed to `bit_size` bits.
    u8 { bit_size: Option<u8> },
    /// Signed 16-bit integer.
    s16,
    /// Unsigned 16-bit integer, optionally narrowed to `bit_size` bits.
    u16 { bit_size: Option<u8> },
    /// Signed 32-bit integer.
    s32,
    /// Unsigned 32-bit integer, optionally narrowed to `bit_size` bits.
    u32 { bit_size: Option<u8> },
    /// Boolean stored in 32 bits; zero is `false`.
    b32,
    /// Single-precision float.
    fp32,
    /// Single-precision float holding an angle.
    a32,
    /// Double-precision float.
    fp64,
    /// Fixed-length string in the legacy 8-bit encoding.
    fixstr { length: usize },
    /// Fixed-length string in UTF-16.
    fixstrW { length: usize },
    /// Unused bytes or bits. One byte when `length` is `None`.
    dummy8 { length: Option<DummyType> },
}

impl ParamFieldType {
    /// Whether this type can carry a bit size: the unsigned integers only.
    pub open spec fn spec_supports_bit_size(self) -> bool {
        self is u8 || self is u16 || self is u32
    }

    /// This type narrowed to `b` bits (unchanged where that is not supported).
    pub open spec fn with_bit_size(self, b: u8) -> ParamFieldType {
        match self {
            ParamFieldType::u8 { .. } => ParamFieldType::u8 { bit_size: Some(b) },
            ParamFieldType::u16 { .. } => ParamFieldType::u16 { bit_size: Some(b) },
            ParamFieldType::u32 { .. } => ParamFieldType::u32 { bit_size: Some(b) },
            _ => self,
        }
    }

    /// Sets the bit size of an unsigned integer type.
    pub fn set_bit_size(&mut self, new_bit_size: u8)
        requires
            old(self).spec_supports_bit_size(),
        ensures
            *final(self) == old(self).with_bit_size(new_bit_size),
    {
        match self {
            ParamFieldType::u8 { bit_size } => *bit_size = Some(new_bit_size),
            ParamFieldType::u16 { bit_size } => *bit_size = Some(new_bit_size),
            ParamFieldType::u32 { bit_size } => *bit_size = Some(new_bit_size),
            _ => {},
        }
    }

    /// Whether this type can carry a bit size.
    pub fn supports_bit_size(&self) -> (r: bool)
        ensures
            r == self.spec_supports_bit_size(),
    {
        match self {
            ParamFieldType::u8 { .. } | ParamFieldType::u16 { .. } | ParamFieldType::u32 { .. } => true,
            _ => false,
        }
    }
}

/// Characters of an optional text.
pub open spec fn text_opt(o: Option<String>) -> Option<Seq<char>> {
    match o {
        Some(t) => Some(t@),
        None => None,
    }
}

/// One field as a definition line states it: type, name and default.
///
/// The default is kept as the decimal literal written in the line
/// (an optional sign, digits, and optionally a point and more digits).
#[derive(Debug)]
pub struct ParamFieldDef {
    pub field_type: ParamFieldType,
    pub name: String,
    pub default_value: Option<String>,
}

/// Mathematical value of a [`ParamFieldDef`].
pub struct FieldDefView {
    pub field_type: ParamFieldType,
    pub name: Seq<char>,
    pub default_value: Option<Seq<char>>,
}

impl View for ParamFieldDef {
    type V = FieldDefView;

    open spec fn view(&self) -> FieldDefView {
        FieldDefView {
            field_type: self.field_type,
            name: self.name@,
            default_value: text_opt(self.default_value),
        }
    }
}

impl ParamdefEndian {
    /// The byte order that a big-endian flag names.
    pub fn from_flag(big: bool) -> (r: ParamdefEndian)
        ensures
            r == (if big { ParamdefEndian::Big } else { ParamdefEndian::Little }),
    {
        if big {
            ParamdefEndian::Big
        } else {
            ParamdefEndian::Little
        }
    }
}

impl ParamdefFormat {
    /// The string encoding that a flag names: UTF-16 when set.
    pub fn from_flag(wide: bool) -> (r: ParamdefFormat)
        ensures
            r == (if wide { ParamdefFormat::UTF16 } else { ParamdefFormat::ShiftJIS }),
    {
        if wide {
            ParamdefFormat::UTF16
        } else {
            ParamdefFormat::ShiftJIS
        }
    }
}

/// Editor hints for a field.
#[derive(PartialEq, Eq, Structural, Clone, Copy, Debug)]
pub struct EditFlags {
    pub wrap: bool,
    pub lock: bool,
}

/// A field of a param: its definition and the editor metadata around it.
///
/// `minimum`, `maximum` and `increment` keep the text that the document
/// gives for them.
#[derive(Debug)]
pub struct ParamField {
    pub field_def: ParamFieldDef,
    pub display_name: Option<String>,
    pub enum_tdf: Option<String>,
    pub description: Option<String>,
    pub printf_format: Option<String>,
    pub edit_flags: Option<EditFlags>,
    pub minimum: Option<String>,
    pub maximum: Option<String>,
    pub increment: Option<String>,
    pub sort_id: Option<usize>,
}

/// Mathematical value of a [`ParamField`].
pub struct ParamFieldView {
    pub field_def: FieldDefView,
    pub display_name: Option<Seq<char>>,
    pub enum_tdf: Option<Seq<char>>,
    pub description: Option<Seq<char>>,
    pub printf_format: Option<Seq<char>>,
    pub edit_flags: Option<EditFlags>,
    pub minimum: Option<Seq<char>>,
    pub maximum: Option<Seq<char>>,
    pub increment: Option<Seq<char>>,
    pub sort_id: Option<usize>,
}

impl View for ParamField {
    type V = ParamFieldView;

    open spec fn view(&self) -> ParamFieldView {
        ParamFieldView {
            field_def: self.field_def@,
            display_name: text_opt(self.display_name),
            enum_tdf: text_opt(self.enum_tdf),
            description: text_opt(self.description),
            printf_format: text_opt(self.printf_format),
            edit_flags: self.edit_flags,
            minimum: text_opt(self.minimum),
            maximum: text_opt(self.maximum),
            increment: text_opt(self.increment),
            sort_id: self.sort_id,
        }
    }
}

/// The definition of one param type: its header values and its fields in
/// layout order.
#[derive(Debug)]
pub struct ParamDef {
    pub param_type: String,
    pub data_version: u32,
    pub endian: ParamdefEndian,
    pub string_format: ParamdefFormat,
    pub format_version: u32,
    pub fields: Vec<ParamField>,
}

/// Mathematical value of a [`ParamDef`].
pub struct ParamDefView {
    pub param_type: Seq<char>,
    pub data_version: u32,
    pub endian: ParamdefEndian,
    pub string_format: ParamdefFormat,
    pub format_version: u32,
    pub fields: Seq<ParamFieldView>,
}

impl View for ParamDef {
    type V = ParamDefView;

    open spec fn view(&self) -> ParamDefView {
        ParamDefView {
            param_type: self.param_type@,
            data_version: self.data_version,
            endian: self.endian,
            string_format: self.string_format,
            format_version: self.format_version,
            fields: self.fields@.map_values(|f: ParamField| f@),
        }
    }
}

/// Definitions by param type; of two with one type, the later one counts.
pub open spec fn defs_map(ds: Seq<ParamDef>) -> Map<Seq<char>, ParamDefView>
    decreases ds.len(),
{
    if ds.len() == 0 {
        Map::empty()
    } else {
        defs_map(ds.drop_last()).insert(ds.last().param_type@, ds.last()@)
    }
}

/// The definitions of a set of documents, read in order; the first
/// rejected document decides.
pub open spec fn registry_of(inputs: Seq<Seq<char>>) -> Result<Map<Seq<char>, ParamDefView>, DeserializeErrorView>
    decreases inputs.len(),
{
    if inputs.len() == 0 {
        Ok(Map::empty())
    } else {
        match registry_of(inputs.drop_last()) {
            Err(e) => Err(e),
            Ok(m) => match def_of_text(inputs.last()) {
                Err(e) => Err(e),
                Ok(d) => Ok(m.insert(d.param_type, d)),
            },
        }
    }
}

/// Param definitions by param type.
///
/// Kept in a `Vec` rather than a `HashMap`: with `String` keys, vstd's
/// `HashMap` specification gives no usable facts about lookups, and here
/// every insertion and lookup is proved.
pub struct Paramdex {
    definitions: Vec<ParamDef>,
}

impl View for Paramdex {
    type V = Map<Seq<char>, ParamDefView>;

    closed spec fn view(&self) -> Map<Seq<char>, ParamDefView> {
        defs_map(self.definitions@)
    }
}

proof fn lemma_defs_lookup(ds: Seq<ParamDef>, i: int, key: Seq<char>)
    requires
        0 <= i <= ds.len(),
        forall|j: int| i <= j < ds.len() ==> (#[trigger] ds[j]).param_type@ != key,
    ensures
        defs_map(ds).contains_key(key) == defs_map(ds.take(i)).contains_key(key),
        defs_map(ds).contains_key(key) ==> defs_map(ds)[key] == defs_map(ds.take(i))[key],
    decreases ds.len() - i,
{
    if i < ds.len() {
        assert(ds.drop_last().take(i) =~= ds.take(i));
        lemma_defs_lookup(ds.drop_last(), i, key);
    } else {
        assert(ds.take(i) =~= ds);
    }
}

proof fn lemma_defs_update(ds: Seq<ParamDef>, i: int, d: ParamDef)
    requires
        0 <= i < ds.len(),
        ds[i].param_type@ == d.param_type@,
        forall|j: int| i < j < ds.len() ==> (#[trigger] ds[j]).param_type@ != d.param_type@,
    ensures
        defs_map(ds.update(i, d)) == defs_map(ds).insert(d.param_type@, d@),
    decreases ds.len(),
{
    let u = ds.update(i, d);
    if i == ds.len() - 1 {
        assert(u.drop_last() =~= ds.drop_last());
        assert(defs_map(u) =~= defs_map(ds).insert(d.param_type@, d@));
    } else {
        assert(u.drop_last() =~= ds.drop_last().update(i, d));
        lemma_defs_update(ds.drop_last(), i, d);
        assert(defs_map(u) =~= defs_map(ds).insert(d.param_type@, d@));
    }
}

impl Paramdex {
    /// An empty registry.
    pub fn empty() -> (p: Paramdex)
        ensures
            p@ == Map::<Seq<char>, ParamDefView>::empty(),
    {
        Paramdex { definitions: Vec::new() }
    }

    /// Where the definition of `key` is kept, if there is one.
    fn position_of(&self, key: &String) -> (r: Option<usize>)
        ensures
            match r {
                Some(i) => i < self.definitions@.len() && self.definitions@[i as int].param_type@ == key@
                    && forall|j: int|
                    i < j < self.definitions@.len() ==> (#[trigger] self.definitions@[j]).param_type@ != key@,
                None => forall|j: int|
                    0 <= j < self.definitions@.len() ==> (#[trigger] self.definitions@[j]).param_type@ != key@,
            },
    {
        let mut i = self.definitions.len();
        while i > 0
            invariant
                i <= self.definitions@.len(),
                forall|j: int| i <= j < self.definitions@.len() ==> (#[trigger] self.definitions@[j]).param_type@ != key@,
            decreases i,
        {
            if self.definitions[i - 1].param_type == *key {
                return Some(i - 1);
            }
            i -= 1;
        }
        None
    }

    /// Adds a definition under its param type, and hands back the one it
    /// replaces.
    pub fn insert(&mut self, paramdef: ParamDef) -> (r: Option<ParamDef>)
        ensures
            final(self)@ == old(self)@.insert(paramdef.param_type@, paramdef@),
            match r {
                Some(d) => old(self)@.contains_key(paramdef.param_type@) && d@ == old(self)@[paramdef.param_type@],
                None => !old(self)@.contains_key(paramdef.param_type@),
            },
    {
        let ghost key = paramdef.param_type@;
        let ghost pd = paramdef;
        match self.position_of(&paramdef.param_type) {
            Some(i) => {
                let ghost ds = self.definitions@;
                proof {
                    lemma_defs_lookup(ds, i + 1, key);
                    assert(ds.take(i + 1).drop_last() =~= ds.take(i as int));
                    lemma_defs_update(ds, i as int, pd);
                }
                let mut d = paramdef;
                self.definitions.set_and_swap(i, &mut d);
                Some(d)
            },
            None => {
                proof {
                    lemma_defs_lookup(self.definitions@, 0, key);
                }
                self.definitions.push(paramdef);
                assert(self.definitions@.drop_last() =~= old(self).definitions@);
                None
            },
        }
    }

    /// The definition of the param type `key`.
    pub fn get_param_def(&self, key: &str) -> (r: Option<&ParamDef>)
        ensures
            match r {
                Some(d) => self@.contains_key(key@) && d@ == self@[key@],
                None => !self@.contains_key(key@),
            },
    {
        let k = key.to_owned();
        match self.position_of(&k) {
            Some(i) => {
                proof {
                    let ds = self.definitions@;
                    lemma_defs_lookup(ds, i + 1, key@);
                    assert(ds.take(i + 1).drop_last() =~= ds.take(i as int));
                }
                Some(&self.definitions[i])
            },
            None => {
                proof {
                    lemma_defs_lookup(self.definitions@, 0, key@);
                }
                None
            },
        }
    }

    /// Reads every document in order into one registry; the first document
    /// that is rejected gives the error.
    pub fn deserialize_all(inputs: &Vec<String>) -> (r: Result<Paramdex, ParamdefDeserializeError>)
        ensures
            match (r, registry_of(inputs@.map_values(|t: String| t@))) {
                (Ok(p), Ok(m)) => p@ == m,
                (Err(e), Err(ev)) => e@ == ev,
                _ => false,
            },
    {
        let ghost texts = inputs@.map_values(|t: String| t@);
        let mut paramdex = Paramdex::empty();
        let mut i: usize = 0;
        assert(texts.take(0) =~= Seq::<Seq<char>>::empty());
        while i < inputs.len()
            invariant
                i <= inputs@.len(),
                texts == inputs@.map_values(|t: String| t@),
                registry_of(texts.take(i as int)) == Ok::<Map<Seq<char>, ParamDefView>, DeserializeErrorView>(
                    paramdex@,
                ),
            decreases inputs@.len() - i,
        {
            assert(texts.take(i + 1).drop_last() =~= texts.take(i as int));
            assert(texts.take(i + 1).last() == inputs@[i as int]@);
            let r = deserialize_def(inputs[i].as_str());
            match r {
                Err(e) => {
                    proof {
                        lemma_registry_error_stays(texts, i + 1);
                    }
                    return Err(e);
                },
                Ok(d) => {
                    paramdex.insert(d);
                },
            }
            i += 1;
        }
        assert(texts.take(inputs@.len() as int) =~= texts);
        Ok(paramdex)
    }
}

proof fn lemma_registry_error_stays(ts: Seq<Seq<char>>, i: int)
    requires
        0 <= i <= ts.len(),
        registry_of(ts.take(i)) is Err,
    ensures
        registry_of(ts) == registry_of(ts.take(i)),
    decreases ts.len() - i,
{
    if i < ts.len() {
        assert(ts.drop_last().take(i) =~= ts.take(i));
        lemma_registry_error_stays(ts.drop_last(), i);
    } else {
        assert(ts.take(i) =~= ts);
    }
}

} // verus!
