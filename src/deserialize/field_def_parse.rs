//! The field-definition line: `TYPE NAME[:BITS][ = DEFAULT]` and its
//! padding and fixed-string forms.
//!
//! ```text
//! def        := def_fixstr | def_dummy | def_simple | def_unrecog
//! def_simple := TYPE WS NAME (":" UINT)? (WS? "=" WS? FLOAT)?
//! def_dummy  := "dummy8" WS NAME ("[" UINT "]" | ":" UINT)? (WS? "=" WS? FLOAT)?
//! def_fixstr := ("fixstr" | "fixstrW") WS NAME "[" UINT "]"
//! ```

use vstd::prelude::*;
use vstd::utf8::{encode_scalar, encode_utf8};
use crate::{DummyType, FieldDefView, ParamFieldDef, ParamFieldType};

verus! {

/// Byte range `start..end` of the line that an error points at.
#[derive(PartialEq, Eq, Structural, Clone, Copy, Debug)]
pub struct ErrSpan {
    pub start: usize,
    pub end: usize,
}

/// Why a field-definition line was rejected.
#[derive(Debug)]
pub enum DefParseError {
    /// The line does not have the shape that its type keyword calls for.
    Syntax(ErrSpan),
    /// A bit size was given for a type that cannot carry one.
    BitSizeUnsupported(ErrSpan),
    /// The leading token names no known field type.
    UnrecognizedType { token: String, span: ErrSpan },
    /// A length or bit size does not fit its integer type.
    NumberTooLarge(ErrSpan),
}

/// Mathematical value of a [`DefParseError`].
pub enum DefParseErrorView {
    Syntax(ErrSpan),
    BitSizeUnsupported(ErrSpan),
    UnrecognizedType { token: Seq<char>, span: ErrSpan },
    NumberTooLarge(ErrSpan),
}

impl View for DefParseError {
    type V = DefParseErrorView;

    open spec fn view(&self) -> DefParseErrorView {
        match self {
            DefParseError::Syntax(s) => DefParseErrorView::Syntax(*s),
            DefParseError::BitSizeUnsupported(s) => DefParseErrorView::BitSizeUnsupported(*s),
            DefParseError::UnrecognizedType { token, span } => DefParseErrorView::UnrecognizedType {
                token: token@,
                span: *span,
            },
            DefParseError::NumberTooLarge(s) => DefParseErrorView::NumberTooLarge(*s),
        }
    }
}

/// A rejection located by character positions in the line.
#[derive(PartialEq, Eq, Structural, Clone, Copy, Debug)]
pub enum LineFault {
    /// Nothing allowed stands at this position.
    Syntax(usize),
    /// The bit-size suffix between these positions is not allowed here.
    BitSize(usize, usize),
    /// The leading token, between these positions, is no type.
    Unrecognized(usize, usize),
    /// The number between these positions is too large.
    TooLarge(usize, usize),
}

/// Classes of characters that the grammar scans runs of.
#[derive(PartialEq, Eq, Structural, Clone, Copy)]
pub enum CharClass {
    Space,
    Name,
    Digit,
    Token,
}

pub open spec fn is_ws(c: char) -> bool {
    c == ' ' || c == '\t' || c == '\n' || c == '\r'
}

pub open spec fn in_class(c: char, class: CharClass) -> bool {
    match class {
        CharClass::Space => is_ws(c),
        CharClass::Name => !is_ws(c) && c != ':' && c != '[' && c != '=',
        CharClass::Digit => '0' <= c && c <= '9',
        CharClass::Token => !is_ws(c),
    }
}

/// End of the longest run of `class` characters that starts at `i`.
pub open spec fn run_end(s: Seq<char>, i: int, class: CharClass) -> int
    decreases s.len() - i,
{
    if 0 <= i < s.len() && in_class(s[i], class) {
        run_end(s, i + 1, class)
    } else {
        i
    }
}

/// Value of a run of decimal digits.
pub open spec fn decimal_value(t: Seq<char>) -> nat
    decreases t.len(),
{
    if t.len() == 0 {
        0
    } else {
        10 * decimal_value(t.drop_last()) + (t.last() as nat - '0' as nat) as nat
    }
}

/// Number of bytes that the first `i` characters take in UTF-8.
pub open spec fn byte_offset(s: Seq<char>, i: int) -> nat {
    encode_utf8(s.take(i)).len()
}

/// End of a signed decimal starting at `r`, or where its digits are missing.
pub open spec fn number_end(s: Seq<char>, r: int) -> Result<int, int> {
    let j = if r < s.len() && (s[r] == '-' || s[r] == '+') {
        r + 1
    } else {
        r
    };
    let d = run_end(s, j, CharClass::Digit);
    if d == j {
        Err(j)
    } else if d < s.len() && s[d] == '.' {
        Ok(run_end(s, d + 1, CharClass::Digit))
    } else {
        Ok(d)
    }
}

/// The optional ` = DEFAULT` that ends a line, from position `p` on, and
/// the whitespace that may close the line.
pub open spec fn default_suffix(s: Seq<char>, p: int) -> Result<Option<Seq<char>>, LineFault> {
    let q = run_end(s, p, CharClass::Space);
    if q < s.len() && s[q] == '=' {
        let r = run_end(s, q + 1, CharClass::Space);
        match number_end(s, r) {
            Err(j) => Err(LineFault::Syntax(j as usize)),
            Ok(f) => if run_end(s, f, CharClass::Space) == s.len() {
                Ok(Some(s.subrange(r, f)))
            } else {
                Err(LineFault::Syntax(run_end(s, f, CharClass::Space) as usize))
            },
        }
    } else if q == s.len() {
        Ok(None)
    } else {
        Err(LineFault::Syntax(q as usize))
    }
}

/// The suffix `:BITS` whose colon stands at `n`: the bit count and where it ends.
pub open spec fn bits_suffix(s: Seq<char>, n: int) -> Result<(u8, int), LineFault> {
    let d = run_end(s, n + 1, CharClass::Digit);
    if d == n + 1 {
        Err(LineFault::Syntax(d as usize))
    } else if decimal_value(s.subrange(n + 1, d)) > u8::MAX {
        Err(LineFault::TooLarge((n + 1) as usize, d as usize))
    } else {
        Ok((decimal_value(s.subrange(n + 1, d)) as u8, d))
    }
}

/// The suffix `[LEN]` whose bracket stands at `n`: the length and where it ends.
pub open spec fn array_suffix(s: Seq<char>, n: int) -> Result<(usize, int), LineFault> {
    let d = run_end(s, n + 1, CharClass::Digit);
    if d == n + 1 {
        Err(LineFault::Syntax(d as usize))
    } else if d >= s.len() || s[d] != ']' {
        Err(LineFault::Syntax(d as usize))
    } else if decimal_value(s.subrange(n + 1, d)) > usize::MAX {
        Err(LineFault::TooLarge((n + 1) as usize, d as usize))
    } else {
        Ok((decimal_value(s.subrange(n + 1, d)) as usize, d + 1))
    }
}

/// The whitespace and name after a type keyword that ends at `k`: where the
/// name starts and ends.
pub open spec fn name_part(s: Seq<char>, k: int) -> Result<(int, int), LineFault> {
    let w = run_end(s, k, CharClass::Space);
    let n = run_end(s, w, CharClass::Name);
    if w == k {
        Err(LineFault::Syntax(k as usize))
    } else if n == w {
        Err(LineFault::Syntax(w as usize))
    } else {
        Ok((w, n))
    }
}

/// A line of a plain numeric type `ty`, whose keyword ends at `k`.
pub open spec fn simple_line(s: Seq<char>, ty: ParamFieldType, k: int) -> Result<FieldDefView, LineFault> {
    match name_part(s, k) {
        Err(e) => Err(e),
        Ok((w, n)) => if n < s.len() && s[n] == ':' {
            match bits_suffix(s, n) {
                Err(e) => Err(e),
                Ok((b, d)) => if !ty.spec_supports_bit_size() {
                    Err(LineFault::BitSize(n as usize, d as usize))
                } else {
                    match default_suffix(s, d) {
                        Err(e) => Err(e),
                        Ok(dv) => Ok(
                            FieldDefView {
                                field_type: ty.with_bit_size(b),
                                name: s.subrange(w, n),
                                default_value: dv,
                            },
                        ),
                    }
                },
            }
        } else {
            match default_suffix(s, n) {
                Err(e) => Err(e),
                Ok(dv) => Ok(FieldDefView { field_type: ty, name: s.subrange(w, n), default_value: dv }),
            }
        },
    }
}

/// The optional length of a padding field whose name ends at `n`, and where it ends.
pub open spec fn dummy_length(s: Seq<char>, n: int) -> Result<(Option<DummyType>, int), LineFault> {
    if n < s.len() && s[n] == '[' {
        match array_suffix(s, n) {
            Err(e) => Err(e),
            Ok((v, e)) => Ok((Some(DummyType::Bytes(v)), e)),
        }
    } else if n < s.len() && s[n] == ':' {
        match bits_suffix(s, n) {
            Err(e) => Err(e),
            Ok((b, e)) => Ok((Some(DummyType::Bits(b)), e)),
        }
    } else {
        Ok((None, n))
    }
}

/// A padding line, whose keyword ends at `k`.
pub open spec fn dummy_line(s: Seq<char>, k: int) -> Result<FieldDefView, LineFault> {
    match name_part(s, k) {
        Err(e) => Err(e),
        Ok((w, n)) => match dummy_length(s, n) {
            Err(e) => Err(e),
            Ok((len, p)) => match default_suffix(s, p) {
                Err(e) => Err(e),
                Ok(dv) => Ok(
                    FieldDefView {
                        field_type: ParamFieldType::dummy8 { length: len },
                        name: s.subrange(w, n),
                        default_value: dv,
                    },
                ),
            },
        },
    }
}

/// A fixed-string line, whose keyword ends at `k`.
pub open spec fn fixstr_line(s: Seq<char>, k: int, wide: bool) -> Result<FieldDefView, LineFault> {
    match name_part(s, k) {
        Err(e) => Err(e),
        Ok((w, n)) => if n < s.len() && s[n] == '[' {
            match array_suffix(s, n) {
                Err(e) => Err(e),
                Ok((v, e)) => if run_end(s, e, CharClass::Space) == s.len() {
                    Ok(
                        FieldDefView {
                            field_type: if wide {
                                ParamFieldType::fixstrW { length: v }
                            } else {
                                ParamFieldType::fixstr { length: v }
                            },
                            name: s.subrange(w, n),
                            default_value: None,
                        },
                    )
                } else {
                    Err(LineFault::Syntax(run_end(s, e, CharClass::Space) as usize))
                },
            }
        } else {
            Err(LineFault::Syntax(n as usize))
        },
    }
}

/// The numeric type that a keyword of a plain line names.
pub open spec fn simple_keyword(t: Seq<char>) -> Option<ParamFieldType> {
    if t == seq!['s', '8'] {
        Some(ParamFieldType::s8)
    } else if t == seq!['u', '8'] {
        Some(ParamFieldType::u8 { bit_size: None })
    } else if t == seq!['s', '1', '6'] {
        Some(ParamFieldType::s16)
    } else if t == seq!['u', '1', '6'] {
        Some(ParamFieldType::u16 { bit_size: None })
    } else if t == seq!['s', '3', '2'] {
        Some(ParamFieldType::s32)
    } else if t == seq!['u', '3', '2'] {
        Some(ParamFieldType::u32 { bit_size: None })
    } else if t == seq!['f', '3', '2'] {
        Some(ParamFieldType::fp32)
    } else if t == seq!['f', '6', '4'] {
        Some(ParamFieldType::fp64)
    } else if t == seq!['a', '3', '2'] || t == seq!['a', 'n', 'g', 'l', 'e', '3', '2'] {
        Some(ParamFieldType::a32)
    } else if t == seq!['b', '3', '2'] {
        Some(ParamFieldType::b32)
    } else {
        None
    }
}

pub open spec fn dummy_keyword() -> Seq<char> {
    seq!['d', 'u', 'm', 'm', 'y', '8']
}

pub open spec fn fixstr_keyword() -> Seq<char> {
    seq!['f', 'i', 'x', 's', 't', 'r']
}

pub open spec fn fixstr_wide_keyword() -> Seq<char> {
    seq!['f', 'i', 'x', 's', 't', 'r', 'W']
}

/// What a line defines, or where and why it is rejected, by character positions.
///
/// Whitespace may open and close the line; between the type keyword and the
/// name it is required.
pub open spec fn line_result(s: Seq<char>) -> Result<FieldDefView, LineFault> {
    let k0 = run_end(s, 0, CharClass::Space);
    let k = run_end(s, k0, CharClass::Token);
    let t = s.subrange(k0, k);
    if k == k0 {
        Err(LineFault::Syntax(k0 as usize))
    } else if simple_keyword(t) is Some {
        simple_line(s, simple_keyword(t)->Some_0, k)
    } else if t == dummy_keyword() {
        dummy_line(s, k)
    } else if t == fixstr_keyword() {
        fixstr_line(s, k, false)
    } else if t == fixstr_wide_keyword() {
        fixstr_line(s, k, true)
    } else {
        Err(LineFault::Unrecognized(k0 as usize, k as usize))
    }
}

pub open spec fn byte_span(s: Seq<char>, a: usize, b: usize) -> ErrSpan {
    ErrSpan { start: byte_offset(s, a as int) as usize, end: byte_offset(s, b as int) as usize }
}

/// The error reported for a fault, with positions turned into byte offsets.
pub open spec fn fault_error(s: Seq<char>, f: LineFault) -> DefParseErrorView {
    match f {
        LineFault::Syntax(p) => DefParseErrorView::Syntax(byte_span(s, p, p)),
        LineFault::BitSize(a, b) => DefParseErrorView::BitSizeUnsupported(byte_span(s, a, b)),
        LineFault::Unrecognized(a, b) => DefParseErrorView::UnrecognizedType {
            token: s.subrange(a as int, b as int),
            span: byte_span(s, a, b),
        },
        LineFault::TooLarge(a, b) => DefParseErrorView::NumberTooLarge(byte_span(s, a, b)),
    }
}

/// What parsing the line `s` gives.
pub open spec fn field_def_of(s: Seq<char>) -> Result<FieldDefView, DefParseErrorView> {
    match line_result(s) {
        Ok(d) => Ok(d),
        Err(f) => Err(fault_error(s, f)),
    }
}

pub open spec fn def_result_is(r: Result<ParamFieldDef, DefParseError>, v: Result<FieldDefView, DefParseErrorView>) -> bool {
    match (r, v) {
        (Ok(d), Ok(dv)) => d@ == dv,
        (Err(e), Err(ev)) => e@ == ev,
        _ => false,
    }
}

pub open spec fn fault_result_is(r: Result<ParamFieldDef, LineFault>, v: Result<FieldDefView, LineFault>) -> bool {
    match (r, v) {
        (Ok(d), Ok(dv)) => d@ == dv,
        (Err(e), Err(ev)) => e == ev,
        _ => false,
    }
}

fn class_char(c: char, class: CharClass) -> (r: bool)
    ensures
        r == in_class(c, class),
{
    let ws = c == ' ' || c == '\t' || c == '\n' || c == '\r';
    match class {
        CharClass::Space => ws,
        CharClass::Name => !ws && c != ':' && c != '[' && c != '=',
        CharClass::Digit => '0' <= c && c <= '9',
        CharClass::Token => !ws,
    }
}

pub(crate) fn scan(s: &Vec<char>, i: usize, class: CharClass) -> (r: usize)
    requires
        i <= s@.len(),
    ensures
        r == run_end(s@, i as int, class),
        i <= r <= s@.len(),
{
    let mut j: usize = i;
    while j < s.len() && class_char(s[j], class)
        invariant
            i <= j <= s@.len(),
            run_end(s@, i as int, class) == run_end(s@, j as int, class),
        decreases s@.len() - j,
    {
        j += 1;
    }
    j
}

/// Every position of the fault lies within a line of `len` characters.
pub open spec fn fault_within(f: LineFault, len: nat) -> bool {
    match f {
        LineFault::Syntax(p) => p <= len,
        LineFault::BitSize(a, b) => a <= b <= len,
        LineFault::Unrecognized(a, b) => a <= b <= len,
        LineFault::TooLarge(a, b) => a <= b <= len,
    }
}

proof fn lemma_value_prefix(t: Seq<char>, k: int)
    requires
        0 <= k <= t.len(),
    ensures
        decimal_value(t.take(k)) <= decimal_value(t),
    decreases t.len(),
{
    if k == t.len() {
        assert(t.take(k) =~= t);
    } else {
        assert(t.drop_last().take(k) =~= t.take(k));
        lemma_value_prefix(t.drop_last(), k);
    }
}

proof fn lemma_encode_len_concat(a: Seq<char>, b: Seq<char>)
    ensures
        encode_utf8(a + b).len() == encode_utf8(a).len() + encode_utf8(b).len(),
    decreases a.len(),
{
    if a.len() == 0 {
        assert(a + b =~= b);
    } else {
        assert((a + b).drop_first() =~= a.drop_first() + b);
        assert((a + b)[0] == a[0]);
        lemma_encode_len_concat(a.drop_first(), b);
    }
}

proof fn lemma_encode_len_one(c: char)
    ensures
        encode_utf8(seq![c]).len() == encode_scalar(c as u32).len(),
{
    assert(seq![c].drop_first() =~= Seq::<char>::empty());
    assert(seq![c][0] == c);
    assert(encode_utf8(Seq::<char>::empty()).len() == 0);
    assert(encode_utf8(seq![c]) == encode_scalar(c as u32) + encode_utf8(seq![c].drop_first()));
}

/// The decimal value of the digits `s[a..b]`, or `None` when it exceeds `limit`.
pub(crate) fn parse_uint(s: &Vec<char>, a: usize, b: usize, limit: u64) -> (r: Option<u64>)
    requires
        a <= b <= s@.len(),
        limit >= 9,
        forall|k: int| a <= k < b ==> in_class(#[trigger] s@[k], CharClass::Digit),
    ensures
        decimal_value(s@.subrange(a as int, b as int)) <= limit ==> r == Some(
            decimal_value(s@.subrange(a as int, b as int)) as u64,
        ),
        decimal_value(s@.subrange(a as int, b as int)) > limit ==> r is None,
{
    let mut acc: u64 = 0;
    let mut i: usize = a;
    assert(s@.subrange(a as int, a as int) =~= Seq::<char>::empty());
    while i < b
        invariant
            a <= i <= b <= s@.len(),
            limit >= 9,
            forall|k: int| a <= k < b ==> in_class(#[trigger] s@[k], CharClass::Digit),
            acc as nat == decimal_value(s@.subrange(a as int, i as int)),
            acc <= limit,
        decreases b - i,
    {
        let c = s[i];
        assert(in_class(s@[i as int], CharClass::Digit));
        let d: u64 = (c as u32 - '0' as u32) as u64;
        let ghost next = s@.subrange(a as int, i + 1);
        proof {
            assert(next.drop_last() =~= s@.subrange(a as int, i as int));
            assert(next.last() == c);
            assert(s@.subrange(a as int, b as int).take(i + 1 - a) =~= next);
            lemma_value_prefix(s@.subrange(a as int, b as int), i + 1 - a);
        }
        if acc > limit / 10 {
            assert(acc * 10 > limit) by (nonlinear_arith)
                requires
                    acc > limit / 10,
            ;
            return None;
        }
        assert(acc * 10 <= limit) by (nonlinear_arith)
            requires
                acc <= limit / 10,
        ;
        let t = acc * 10;
        if t > limit - d {
            return None;
        }
        acc = t + d;
        i += 1;
    }
    Some(acc)
}

/// Number of bytes that `c` takes in UTF-8.
fn utf8_width(c: char) -> (w: usize)
    ensures
        w as nat == encode_scalar(c as u32).len(),
{
    let u = c as u32;
    proof {
        vstd::utf8::char_is_scalar(c);
    }
    if u <= 0x7F {
        1
    } else if u <= 0x7FF {
        2
    } else if u <= 0xFFFF {
        3
    } else {
        4
    }
}

/// Byte offset in `input` of its character `i`.
fn byte_pos(input: &str, s: &Vec<char>, i: usize) -> (r: usize)
    requires
        s@.len() <= usize::MAX,
        s@ == input@,
        i <= s@.len(),
    ensures
        r as nat == byte_offset(s@, i as int),
{
    let total = input.as_bytes().len();
    let mut pos: usize = 0;
    let mut j: usize = 0;
    assert(s@.take(0) =~= Seq::<char>::empty());
    while j < i
        invariant
            j <= i <= s@.len(),
            s@ == input@,
            total as nat == encode_utf8(s@).len(),
            pos as nat == encode_utf8(s@.take(j as int)).len(),
        decreases i - j,
    {
        let c = s[j];
        proof {
            lemma_encode_len_concat(s@.take(j as int), s@.skip(j as int));
            assert(s@.take(j as int) + s@.skip(j as int) =~= s@);
            lemma_encode_len_concat(s@.take(j as int), seq![c]);
            assert(s@.take(j as int) + seq![c] =~= s@.take(j + 1));
            lemma_encode_len_concat(seq![c], s@.skip(j + 1));
            assert(seq![c] + s@.skip(j + 1) =~= s@.skip(j as int));
            lemma_encode_len_one(c);
        }
        pos = pos + utf8_width(c);
        j += 1;
    }
    pos
}

/// The characters of `input`, one by one.
pub(crate) fn chars_of(input: &str) -> (v: Vec<char>)
    ensures
        v@ == input@,
        v@.len() <= usize::MAX,
{
    let n = input.unicode_len();
    let mut v: Vec<char> = Vec::new();
    let mut i: usize = 0;
    while i < n
        invariant
            i <= n,
            n == input@.len(),
            v@ == input@.take(i as int),
        decreases n - i,
    {
        v.push(input.get_char(i));
        assert(input@.take(i + 1) =~= input@.take(i as int).push(input@[i as int]));
        i += 1;
    }
    assert(v@ =~= input@);
    v
}

fn number_end_exec(s: &Vec<char>, r: usize) -> (res: Result<usize, usize>)
    requires
        s@.len() <= usize::MAX,
        r <= s@.len(),
    ensures
        match number_end(s@, r as int) {
            Ok(f) => res == Ok::<usize, usize>(f as usize) && r <= f <= s@.len(),
            Err(j) => res == Err::<usize, usize>(j as usize) && r <= j <= s@.len(),
        },
{
    let j = if r < s.len() && (s[r] == '-' || s[r] == '+') {
        r + 1
    } else {
        r
    };
    let d = scan(s, j, CharClass::Digit);
    if d == j {
        Err(j)
    } else if d < s.len() && s[d] == '.' {
        Ok(scan(s, d + 1, CharClass::Digit))
    } else {
        Ok(d)
    }
}

fn default_suffix_exec(input: &str, s: &Vec<char>, p: usize) -> (res: Result<Option<String>, LineFault>)
    requires
        s@.len() <= usize::MAX,
        s@ == input@,
        p <= s@.len(),
    ensures
        match (res, default_suffix(s@, p as int)) {
            (Ok(o), Ok(v)) => crate::text_opt(o) == v,
            (Err(e), Err(f)) => e == f && fault_within(e, s@.len()),
            _ => false,
        },
{
    let q = scan(s, p, CharClass::Space);
    if q < s.len() && s[q] == '=' {
        let r = scan(s, q + 1, CharClass::Space);
        match number_end_exec(s, r) {
            Err(j) => Err(LineFault::Syntax(j)),
            Ok(f) => {
                let g = scan(s, f, CharClass::Space);
                if g == s.len() {
                    Ok(Some(input.substring_char(r, f).to_owned()))
                } else {
                    Err(LineFault::Syntax(g))
                }
            },
        }
    } else if q == s.len() {
        Ok(None)
    } else {
        Err(LineFault::Syntax(q))
    }
}

fn bits_suffix_exec(s: &Vec<char>, n: usize) -> (res: Result<(u8, usize), LineFault>)
    requires
        s@.len() <= usize::MAX,
        n < s@.len(),
    ensures
        match bits_suffix(s@, n as int) {
            Ok((b, d)) => res == Ok::<(u8, usize), LineFault>((b, d as usize)) && n < d <= s@.len(),
            Err(e) => res == Err::<(u8, usize), LineFault>(e) && fault_within(e, s@.len()),
        },
{
    let d = scan(s, n + 1, CharClass::Digit);
    if d == n + 1 {
        return Err(LineFault::Syntax(d));
    }
    assert forall|k: int| n + 1 <= k < d implies in_class(#[trigger] s@[k], CharClass::Digit) by {
        lemma_run_all(s@, n + 1, k, CharClass::Digit);
    }
    match parse_uint(s, n + 1, d, 255) {
        None => Err(LineFault::TooLarge(n + 1, d)),
        Some(v) => Ok((v as u8, d)),
    }
}

fn array_suffix_exec(s: &Vec<char>, n: usize) -> (res: Result<(usize, usize), LineFault>)
    requires
        s@.len() <= usize::MAX,
        n < s@.len(),
    ensures
        match array_suffix(s@, n as int) {
            Ok((v, e)) => res == Ok::<(usize, usize), LineFault>((v, e as usize)) && n < e <= s@.len(),
            Err(e) => res == Err::<(usize, usize), LineFault>(e) && fault_within(e, s@.len()),
        },
{
    let d = scan(s, n + 1, CharClass::Digit);
    if d == n + 1 {
        return Err(LineFault::Syntax(d));
    }
    if d >= s.len() || s[d] != ']' {
        return Err(LineFault::Syntax(d));
    }
    assert forall|k: int| n + 1 <= k < d implies in_class(#[trigger] s@[k], CharClass::Digit) by {
        lemma_run_all(s@, n + 1, k, CharClass::Digit);
    }
    match parse_uint(s, n + 1, d, usize::MAX as u64) {
        None => Err(LineFault::TooLarge(n + 1, d)),
        Some(v) => Ok((v as usize, d + 1)),
    }
}

/// The character that ends a run is not in the class.
pub(crate) proof fn lemma_run_stop(s: Seq<char>, i: int, class: CharClass)
    requires
        0 <= i <= s.len(),
    ensures
        run_end(s, i, class) < s.len() ==> !in_class(s[run_end(s, i, class)], class),
    decreases s.len() - i,
{
    if i < s.len() && in_class(s[i], class) {
        lemma_run_stop(s, i + 1, class);
    }
}

/// Every character from `i` up to the end of its run is in the class.
pub(crate) proof fn lemma_run_all(s: Seq<char>, i: int, k: int, class: CharClass)
    requires
        0 <= i <= k < run_end(s, i, class),
    ensures
        in_class(s[k], class),
    decreases k - i,
{
    if i < k {
        lemma_run_all(s, i + 1, k, class);
    }
}

fn name_part_exec(s: &Vec<char>, k: usize) -> (res: Result<(usize, usize), LineFault>)
    requires
        s@.len() <= usize::MAX,
        k <= s@.len(),
    ensures
        match name_part(s@, k as int) {
            Ok((w, n)) => res == Ok::<(usize, usize), LineFault>((w as usize, n as usize)) && k <= w
                <= n <= s@.len(),
            Err(e) => res == Err::<(usize, usize), LineFault>(e) && fault_within(e, s@.len()),
        },
{
    let w = scan(s, k, CharClass::Space);
    let n = scan(s, w, CharClass::Name);
    if w == k {
        Err(LineFault::Syntax(k))
    } else if n == w {
        Err(LineFault::Syntax(w))
    } else {
        Ok((w, n))
    }
}

fn simple_line_exec(input: &str, s: &Vec<char>, ty: ParamFieldType, k: usize) -> (res: Result<ParamFieldDef, LineFault>)
    requires
        s@.len() <= usize::MAX,
        s@ == input@,
        k <= s@.len(),
    ensures
        fault_result_is(res, simple_line(s@, ty, k as int)),
        res is Err ==> fault_within(res->Err_0, s@.len()),
{
    let (w, n) = match name_part_exec(s, k) {
        Err(e) => return Err(e),
        Ok(p) => p,
    };
    let name = input.substring_char(w, n).to_owned();
    if n < s.len() && s[n] == ':' {
        let (b, d) = match bits_suffix_exec(s, n) {
            Err(e) => return Err(e),
            Ok(p) => p,
        };
        if !ty.supports_bit_size() {
            return Err(LineFault::BitSize(n, d));
        }
        let default_value = match default_suffix_exec(input, s, d) {
            Err(e) => return Err(e),
            Ok(dv) => dv,
        };
        let mut field_type = ty;
        field_type.set_bit_size(b);
        Ok(ParamFieldDef { field_type, name, default_value })
    } else {
        let default_value = match default_suffix_exec(input, s, n) {
            Err(e) => return Err(e),
            Ok(dv) => dv,
        };
        Ok(ParamFieldDef { field_type: ty, name, default_value })
    }
}

fn dummy_line_exec(input: &str, s: &Vec<char>, k: usize) -> (res: Result<ParamFieldDef, LineFault>)
    requires
        s@.len() <= usize::MAX,
        s@ == input@,
        k <= s@.len(),
    ensures
        fault_result_is(res, dummy_line(s@, k as int)),
        res is Err ==> fault_within(res->Err_0, s@.len()),
{
    let (w, n) = match name_part_exec(s, k) {
        Err(e) => return Err(e),
        Ok(p) => p,
    };
    let name = input.substring_char(w, n).to_owned();
    let (length, p) = if n < s.len() && s[n] == '[' {
        match array_suffix_exec(s, n) {
            Err(e) => return Err(e),
            Ok((v, e)) => (Some(DummyType::Bytes(v)), e),
        }
    } else if n < s.len() && s[n] == ':' {
        match bits_suffix_exec(s, n) {
            Err(e) => return Err(e),
            Ok((b, e)) => (Some(DummyType::Bits(b)), e),
        }
    } else {
        (None, n)
    };
    assert(dummy_length(s@, n as int) == Ok::<(Option<DummyType>, int), LineFault>((length, p as int)));
    let default_value = match default_suffix_exec(input, s, p) {
        Err(e) => return Err(e),
        Ok(dv) => dv,
    };
    Ok(ParamFieldDef { field_type: ParamFieldType::dummy8 { length }, name, default_value })
}

fn fixstr_line_exec(input: &str, s: &Vec<char>, k: usize, wide: bool) -> (res: Result<ParamFieldDef, LineFault>)
    requires
        s@.len() <= usize::MAX,
        s@ == input@,
        k <= s@.len(),
    ensures
        fault_result_is(res, fixstr_line(s@, k as int, wide)),
        res is Err ==> fault_within(res->Err_0, s@.len()),
{
    let (w, n) = match name_part_exec(s, k) {
        Err(e) => return Err(e),
        Ok(p) => p,
    };
    if n < s.len() && s[n] == '[' {
        let (v, e) = match array_suffix_exec(s, n) {
            Err(e) => return Err(e),
            Ok(p) => p,
        };
        let g = scan(s, e, CharClass::Space);
        if g != s.len() {
            return Err(LineFault::Syntax(g));
        }
        let name = input.substring_char(w, n).to_owned();
        let field_type = if wide {
            ParamFieldType::fixstrW { length: v }
        } else {
            ParamFieldType::fixstr { length: v }
        };
        Ok(ParamFieldDef { field_type, name, default_value: None })
    } else {
        Err(LineFault::Syntax(n))
    }
}

/// Whether `w` stands in `s` at position `i`.
pub(crate) fn match_at(s: &Vec<char>, i: usize, w: &[char]) -> (r: bool)
    requires
        i <= s@.len(),
    ensures
        r == (i + w@.len() <= s@.len() && s@.subrange(i as int, i + w@.len()) == w@),
{
    let len = s.len();
    if w.len() > len - i {
        return false;
    }
    let mut j: usize = 0;
    while j < w.len()
        invariant
            len == s@.len(),
            i + w@.len() <= s@.len(),
            j <= w@.len(),
            forall|m: int| 0 <= m < j ==> s@[i + m] == w@[m],
        decreases w@.len() - j,
    {
        if s[i + j] != w[j] {
            assert(s@.subrange(i as int, i + w@.len())[j as int] != w@[j as int]);
            return false;
        }
        j += 1;
    }
    assert(s@.subrange(i as int, i + w@.len()) =~= w@);
    true
}

/// Whether the characters `a..k` of `s` are the word `w`.
pub(crate) fn word_at(s: &Vec<char>, a: usize, k: usize, w: &[char]) -> (r: bool)
    requires
        a <= k <= s@.len(),
    ensures
        r == (s@.subrange(a as int, k as int) == w@),
{
    if k - a != w.len() {
        return false;
    }
    match_at(s, a, w)
}

/// Whether the first `k` characters of `s` are the word `w`.
pub(crate) fn word_is(s: &Vec<char>, k: usize, w: &[char]) -> (r: bool)
    requires
        k <= s@.len(),
    ensures
        r == (s@.subrange(0, k as int) == w@),
{
    word_at(s, 0, k, w)
}

fn simple_keyword_exec(s: &Vec<char>, a: usize, k: usize) -> (r: Option<ParamFieldType>)
    requires
        a <= k <= s@.len(),
    ensures
        r == simple_keyword(s@.subrange(a as int, k as int)),
{
    if word_at(s, a, k, &['s', '8']) {
        Some(ParamFieldType::s8)
    } else if word_at(s, a, k, &['u', '8']) {
        Some(ParamFieldType::u8 { bit_size: None })
    } else if word_at(s, a, k, &['s', '1', '6']) {
        Some(ParamFieldType::s16)
    } else if word_at(s, a, k, &['u', '1', '6']) {
        Some(ParamFieldType::u16 { bit_size: None })
    } else if word_at(s, a, k, &['s', '3', '2']) {
        Some(ParamFieldType::s32)
    } else if word_at(s, a, k, &['u', '3', '2']) {
        Some(ParamFieldType::u32 { bit_size: None })
    } else if word_at(s, a, k, &['f', '3', '2']) {
        Some(ParamFieldType::fp32)
    } else if word_at(s, a, k, &['f', '6', '4']) {
        Some(ParamFieldType::fp64)
    } else if word_at(s, a, k, &['a', '3', '2']) || word_at(s, a, k, &['a', 'n', 'g', 'l', 'e', '3', '2']) {
        Some(ParamFieldType::a32)
    } else if word_at(s, a, k, &['b', '3', '2']) {
        Some(ParamFieldType::b32)
    } else {
        None
    }
}

fn line_result_exec(input: &str, s: &Vec<char>) -> (res: Result<ParamFieldDef, LineFault>)
    requires
        s@.len() <= usize::MAX,
        s@ == input@,
    ensures
        fault_result_is(res, line_result(s@)),
        res is Err ==> fault_within(res->Err_0, s@.len()),
{
    let k0 = scan(s, 0, CharClass::Space);
    let k = scan(s, k0, CharClass::Token);
    if k == k0 {
        return Err(LineFault::Syntax(k0));
    }
    match simple_keyword_exec(s, k0, k) {
        Some(ty) => simple_line_exec(input, s, ty, k),
        None => if word_at(s, k0, k, &['d', 'u', 'm', 'm', 'y', '8']) {
            dummy_line_exec(input, s, k)
        } else if word_at(s, k0, k, &['f', 'i', 'x', 's', 't', 'r']) {
            fixstr_line_exec(input, s, k, false)
        } else if word_at(s, k0, k, &['f', 'i', 'x', 's', 't', 'r', 'W']) {
            fixstr_line_exec(input, s, k, true)
        } else {
            Err(LineFault::Unrecognized(k0, k))
        },
    }
}

/// Where an error points.
pub open spec fn error_span(e: DefParseErrorView) -> ErrSpan {
    match e {
        DefParseErrorView::Syntax(sp) => sp,
        DefParseErrorView::BitSizeUnsupported(sp) => sp,
        DefParseErrorView::UnrecognizedType { span, .. } => span,
        DefParseErrorView::NumberTooLarge(sp) => sp,
    }
}

proof fn lemma_byte_offset_mono(s: Seq<char>, a: int, b: int)
    requires
        0 <= a <= b <= s.len(),
    ensures
        byte_offset(s, a) <= byte_offset(s, b) <= encode_utf8(s).len(),
{
    lemma_encode_len_concat(s.take(a), s.subrange(a, b));
    assert(s.take(a) + s.subrange(a, b) =~= s.take(b));
    lemma_encode_len_concat(s.take(b), s.skip(b));
    assert(s.take(b) + s.skip(b) =~= s);
}

fn fault_to_error(input: &str, s: &Vec<char>, f: LineFault) -> (e: DefParseError)
    requires
        s@.len() <= usize::MAX,
        s@ == input@,
        fault_within(f, s@.len()),
    ensures
        e@ == fault_error(s@, f),
        error_span(e@).start <= error_span(e@).end <= encode_utf8(s@).len(),
{
    proof {
        match f {
            LineFault::Syntax(p) => lemma_byte_offset_mono(s@, p as int, p as int),
            LineFault::BitSize(a, b) => lemma_byte_offset_mono(s@, a as int, b as int),
            LineFault::Unrecognized(a, b) => lemma_byte_offset_mono(s@, a as int, b as int),
            LineFault::TooLarge(a, b) => lemma_byte_offset_mono(s@, a as int, b as int),
        }
    }
    match f {
        LineFault::Syntax(p) => {
            let b = byte_pos(input, s, p);
            DefParseError::Syntax(ErrSpan { start: b, end: b })
        },
        LineFault::BitSize(a, b) => DefParseError::BitSizeUnsupported(
            ErrSpan { start: byte_pos(input, s, a), end: byte_pos(input, s, b) },
        ),
        LineFault::Unrecognized(a, b) => DefParseError::UnrecognizedType {
            token: input.substring_char(a, b).to_owned(),
            span: ErrSpan { start: byte_pos(input, s, a), end: byte_pos(input, s, b) },
        },
        LineFault::TooLarge(a, b) => DefParseError::NumberTooLarge(
            ErrSpan { start: byte_pos(input, s, a), end: byte_pos(input, s, b) },
        ),
    }
}

/// Parses one field-definition line.
///
/// On success the result holds the type, the name exactly as written, the
/// bit size or length the suffixes give, and the default's literal text.
/// On failure the error says why and where, in byte offsets into the line,
/// and the span it gives lies within the line.
pub fn parse_param_field_def(input_str: &str) -> (r: Result<ParamFieldDef, DefParseError>)
    ensures
        def_result_is(r, field_def_of(input_str@)),
        r is Err ==> error_span(r->Err_0@).start <= error_span(r->Err_0@).end <= encode_utf8(input_str@).len(),
{
    let s = chars_of(input_str);
    match line_result_exec(input_str, &s) {
        Ok(d) => Ok(d),
        Err(f) => Err(fault_to_error(input_str, &s, f)),
    }
}

/// A run of `class` characters from `i` to `j`, not followed by another, ends at `j`.
proof fn lemma_run_to(s: Seq<char>, i: int, j: int, class: CharClass)
    requires
        0 <= i <= j <= s.len(),
        forall|k: int| i <= k < j ==> in_class(#[trigger] s[k], class),
        j == s.len() || !in_class(s[j], class),
    ensures
        run_end(s, i, class) == j,
    decreases j - i,
{
    if i < j {
        lemma_run_to(s, i + 1, j, class);
    }
}

proof fn lemma_keyword_chars(t: Seq<char>)
    requires
        simple_keyword(t) is Some,
    ensures
        t.len() > 0,
        forall|k: int| 0 <= k < t.len() ==> in_class(#[trigger] t[k], CharClass::Token),
{
}

/// A name that the grammar accepts: one or more characters other than
/// whitespace, `:`, `[` and `=`.
pub open spec fn valid_name(name: Seq<char>) -> bool {
    name.len() > 0 && forall|k: int| 0 <= k < name.len() ==> in_class(#[trigger] name[k], CharClass::Name)
}

/// One or more decimal digits.
pub open spec fn digit_text(d: Seq<char>) -> bool {
    d.len() > 0 && forall|k: int| 0 <= k < d.len() ==> in_class(#[trigger] d[k], CharClass::Digit)
}

/// The text ` = DEFAULT` for a default written as digits, or nothing.
pub open spec fn default_text(default: Option<Seq<char>>) -> Seq<char> {
    match default {
        Some(d) => seq![' ', '=', ' '] + d,
        None => Seq::empty(),
    }
}

/// The length suffix of a padding line: `[DIGITS]`, `:DIGITS` or nothing.
pub open spec fn dummy_suffix_text(len: Option<DummyType>, digits: Seq<char>) -> Seq<char> {
    match len {
        Some(DummyType::Bytes(_)) => seq!['['] + digits + seq![']'],
        Some(DummyType::Bits(_)) => seq![':'] + digits,
        None => Seq::empty(),
    }
}

/// The number a padding length holds.
pub open spec fn dummy_length_value(len: DummyType) -> nat {
    match len {
        DummyType::Bytes(v) => v as nat,
        DummyType::Bits(b) => b as nat,
    }
}

/// The keyword, one space and the name at the head of a line.
proof fn lemma_head(t: Seq<char>, name: Seq<char>, rest: Seq<char>)
    requires
        t.len() > 0,
        forall|i: int| 0 <= i < t.len() ==> in_class(#[trigger] t[i], CharClass::Token),
        valid_name(name),
        rest.len() == 0 || !in_class(rest[0], CharClass::Name),
    ensures
        ({
            let s = t + seq![' '] + name + rest;
            let k = t.len() as int;
            let n = k + 1 + name.len();
            &&& run_end(s, 0, CharClass::Space) == 0
            &&& run_end(s, 0, CharClass::Token) == k
            &&& s.subrange(0, k) == t
            &&& name_part(s, k) == Ok::<(int, int), LineFault>((k + 1, n))
            &&& s.subrange(k + 1, n) == name
            &&& s.subrange(n, s.len() as int) == rest
        }),
{
    let s = t + seq![' '] + name + rest;
    let k = t.len() as int;
    let n = k + 1 + name.len();
    assert(s[0] == t[0]);
    lemma_run_to(s, 0, 0, CharClass::Space);
    assert forall|i: int| 0 <= i < k implies in_class(#[trigger] s[i], CharClass::Token) by {
        assert(s[i] == t[i]);
    }
    lemma_run_to(s, 0, k, CharClass::Token);
    assert(s.subrange(0, k) =~= t);
    assert(s[k] == ' ');
    assert(s[k + 1] == name[0]);
    lemma_run_to(s, k, k + 1, CharClass::Space);
    assert forall|i: int| k + 1 <= i < n implies in_class(#[trigger] s[i], CharClass::Name) by {
        assert(s[i] == name[i - k - 1]);
    }
    if rest.len() > 0 {
        assert(s[n] == rest[0]);
    }
    lemma_run_to(s, k + 1, n, CharClass::Name);
    assert(s.subrange(k + 1, n) =~= name);
    assert(s.subrange(n, s.len() as int) =~= rest);
}

/// A default written as ` = DIGITS` at the end of a line is read as those
/// digits; no text there means no default.
proof fn lemma_default_tail(s: Seq<char>, p: int, default: Option<Seq<char>>)
    requires
        0 <= p <= s.len(),
        s.subrange(p, s.len() as int) == default_text(default),
        default is Some ==> digit_text(default->Some_0),
    ensures
        default_suffix(s, p) == Ok::<Option<Seq<char>>, LineFault>(default),
{
    let tail = s.subrange(p, s.len() as int);
    assert(tail.len() == s.len() - p);
    assert forall|i: int| 0 <= i < tail.len() implies #[trigger] tail[i] == s[p + i] by {}
    match default {
        None => {
            assert(s.len() == p);
            lemma_run_to(s, p, p, CharClass::Space);
        },
        Some(d) => {
            let pre = seq![' ', '=', ' '];
            assert(tail == pre + d);
            assert(tail[0] == pre[0] && tail[1] == pre[1] && tail[2] == pre[2] && tail[3] == d[0]);
            assert(s[p] == tail[0] && s[p + 1] == tail[1] && s[p + 2] == tail[2]);
            assert(s[p + 3] == tail[3]);
            lemma_run_to(s, p, p + 1, CharClass::Space);
            lemma_run_to(s, p + 2, p + 3, CharClass::Space);
            assert forall|i: int| p + 3 <= i < s.len() implies in_class(#[trigger] s[i], CharClass::Digit) by {
                assert(s[i] == tail[i - p]);
                assert(tail[i - p] == d[i - p - 3]);
            }
            lemma_run_to(s, p + 3, s.len() as int, CharClass::Digit);
            lemma_run_to(s, s.len() as int, s.len() as int, CharClass::Space);
            assert forall|i: int| 0 <= i < d.len() implies #[trigger] d[i] == s[p + 3 + i] by {
                assert(tail[3 + i] == d[i]);
            }
            assert(s.subrange(p + 3, s.len() as int) =~= d);
        },
    }
}

/// A line `TYPE NAME`, or `TYPE NAME = DIGITS`, with a plain numeric type
/// keyword and a name of allowed characters, parses to that type and exactly
/// that name (whatever characters it holds), with no bit size, and with the
/// default written, if any.
pub proof fn lemma_simple_line_parses(t: Seq<char>, name: Seq<char>, default: Option<Seq<char>>)
    requires
        simple_keyword(t) is Some,
        valid_name(name),
        default is Some ==> digit_text(default->Some_0),
    ensures
        field_def_of(t + seq![' '] + name + default_text(default)) == Ok::<FieldDefView, DefParseErrorView>(
            FieldDefView { field_type: simple_keyword(t)->Some_0, name, default_value: default },
        ),
{
    let rest = default_text(default);
    let s = t + seq![' '] + name + rest;
    let n = (t.len() + 1 + name.len()) as int;
    lemma_keyword_chars(t);
    if default is Some {
        assert(rest[0] == ' ');
    }
    lemma_head(t, name, rest);
    lemma_default_tail(s, n, default);
    if n < s.len() {
        assert(s[n] == rest[0]);
    }
}

/// A padding line `dummy8 NAME`, `dummy8 NAME[DIGITS]` or
/// `dummy8 NAME:DIGITS`, optionally followed by ` = DIGITS`, parses to
/// padding of one byte, of that many bytes, or of that many bits, with
/// exactly that name and the default written, if any.
#[verifier::rlimit(30)]
pub proof fn lemma_dummy_line_parses(
    name: Seq<char>,
    len: Option<DummyType>,
    digits: Seq<char>,
    default: Option<Seq<char>>,
)
    requires
        valid_name(name),
        len is Some ==> digit_text(digits) && decimal_value(digits) == dummy_length_value(len->Some_0),
        default is Some ==> digit_text(default->Some_0),
    ensures
        field_def_of(
            dummy_keyword() + seq![' '] + name + (dummy_suffix_text(len, digits) + default_text(default)),
        ) == Ok::<FieldDefView, DefParseErrorView>(
            FieldDefView { field_type: ParamFieldType::dummy8 { length: len }, name, default_value: default },
        ),
{
    let t = dummy_keyword();
    let suf = dummy_suffix_text(len, digits);
    let dt = default_text(default);
    let rest = suf + dt;
    let s = t + seq![' '] + name + rest;
    let n = (t.len() + 1 + name.len()) as int;
    lemma_dummy_keyword();
    if rest.len() > 0 {
        if suf.len() > 0 {
            assert(rest[0] == suf[0]);
        } else {
            assert(rest[0] == dt[0]);
        }
    }
    lemma_head(t, name, rest);
    let p = (n + suf.len()) as int;
    assert forall|i: int| 0 <= i < rest.len() implies #[trigger] rest[i] == s[n + i] by {}
    assert(s.subrange(p, s.len() as int) =~= dt);
    lemma_default_tail(s, p, default);
    lemma_dummy_length(s, n, len, digits, dt);
    assert(dummy_line(s, t.len() as int) == Ok::<FieldDefView, LineFault>(
        FieldDefView { field_type: ParamFieldType::dummy8 { length: len }, name, default_value: default },
    ));
}

proof fn lemma_dummy_keyword()
    ensures
        dummy_keyword().len() == 6,
        forall|i: int| 0 <= i < 6 ==> in_class(#[trigger] dummy_keyword()[i], CharClass::Token),
        simple_keyword(dummy_keyword()) is None,
{
}

/// The length suffix of a padding line, followed by `rest`, is read as the
/// length it writes.
proof fn lemma_dummy_length(s: Seq<char>, n: int, len: Option<DummyType>, digits: Seq<char>, rest: Seq<char>)
    requires
        0 <= n <= s.len(),
        s.subrange(n, s.len() as int) == dummy_suffix_text(len, digits) + rest,
        len is Some ==> digit_text(digits) && decimal_value(digits) == dummy_length_value(len->Some_0),
        rest.len() == 0 || rest[0] == ' ',
    ensures
        dummy_length(s, n) == Ok::<(Option<DummyType>, int), LineFault>(
            (len, n + dummy_suffix_text(len, digits).len()),
        ),
{
    let suf = dummy_suffix_text(len, digits);
    let tail = s.subrange(n, s.len() as int);
    assert(tail.len() == s.len() - n);
    assert(tail.len() == suf.len() + rest.len());
    assert forall|i: int| 0 <= i < tail.len() implies #[trigger] tail[i] == s[n + i] by {}
    assert forall|i: int| 0 <= i < suf.len() implies #[trigger] suf[i] == s[n + i] by {
        assert(tail[i] == suf[i]);
    }
    if rest.len() > 0 {
        assert(tail[suf.len() as int] == rest[0]);
    }
    match len {
        None => {
            if n < s.len() {
                assert(s[n] == tail[0]);
                assert(tail[0] == rest[0]);
            }
        },
        Some(l) => {
            let m = n + 1 + digits.len();
            if m < s.len() && l is Bits {
                assert(s[m] == tail[m - n]);
                assert(tail[m - n] == rest[0]);
            }
            assert forall|i: int| n + 1 <= i < m implies in_class(#[trigger] s[i], CharClass::Digit) by {
                assert(s[i] == suf[i - n]);
                assert(suf[i - n] == digits[i - n - 1]);
            }
            assert forall|i: int| 0 <= i < digits.len() implies #[trigger] digits[i] == s[n + 1 + i] by {
                assert(suf[1 + i] == digits[i]);
            }
            assert(s.subrange(n + 1, m) =~= digits);
            assert(s[n] == suf[0]);
            match l {
                DummyType::Bytes(v) => {
                    assert(s[m] == suf[m - n]);
                    lemma_run_to(s, n + 1, m, CharClass::Digit);
                },
                DummyType::Bits(b) => {
                    lemma_run_to(s, n + 1, m, CharClass::Digit);
                },
            }
        },
    }
}

/// Only whitespace stands from position `e` to the end of `s`.
pub open spec fn only_ws_from(s: Seq<char>, e: int) -> bool {
    forall|k: int| e <= k < s.len() ==> is_ws(#[trigger] s[k])
}

/// A line that parses to a fixed-length string carries no default, and
/// nothing but whitespace follows the `]` of its length: no bit-size or
/// default suffix is accepted.
pub proof fn lemma_fixstr_has_no_suffix(s: Seq<char>)
    requires
        field_def_of(s) is Ok,
        field_def_of(s)->Ok_0.field_type is fixstr || field_def_of(s)->Ok_0.field_type is fixstrW,
    ensures
        field_def_of(s)->Ok_0.default_value is None,
        exists|e: int| 0 < e <= s.len() && s[e - 1] == ']' && #[trigger] only_ws_from(s, e),
{
    let k0 = run_end(s, 0, CharClass::Space);
    let k = run_end(s, k0, CharClass::Token);
    let t = s.subrange(k0, k);
    if simple_keyword(t) is None && t != dummy_keyword() {
        let wide = t == fixstr_wide_keyword();
        let (w, n) = name_part(s, k)->Ok_0;
        let (v, e) = array_suffix(s, n)->Ok_0;
        let d = run_end(s, n + 1, CharClass::Digit);
        assert(e == d + 1 && s[d] == ']');
        assert forall|m: int| e <= m < s.len() implies is_ws(#[trigger] s[m]) by {
            lemma_run_all(s, e, m, CharClass::Space);
        }
        assert(only_ws_from(s, e));
    }
}

} // verus!
