//! A plain JSON value model. Parsing is done by serde_json; this module
//! carries the parsed tree as plain data and states field access, equality
//! and compact serialization over it.

use vstd::prelude::*;

use crate::text::{join_spec, str_eq};
use crate::collectors::limits::{limits_text, limits_tree, UsageLimitModel};

verus! {

/// How serde_json stored a number: a non-negative integer, a negative
/// integer, or a finite float.
#[derive(Debug)]
pub enum NumberKind {
    PosInt(u64),
    NegInt(i64),
    Float,
}

/// A JSON number: its storage kind and its canonical text as serde_json
/// writes it.
#[derive(Debug)]
pub struct JsonNumber {
    pub kind: NumberKind,
    pub text: String,
}

/// One `"key": value` pair of an object, in the object's iteration order.
#[derive(Debug)]
pub struct JsonMember {
    pub key: String,
    pub value: JsonValue,
}

/// A JSON document as plain data.
#[derive(Debug)]
pub enum JsonValue {
    Null,
    Bool(bool),
    Number(JsonNumber),
    Str(String),
    Array(Vec<JsonValue>),
    Object(Vec<JsonMember>),
}

#[verifier::external_type_specification]
#[verifier::external_body]
pub struct ExSerdeValue(serde_json::Value);

#[verifier::external_type_specification]
#[verifier::external_body]
pub struct ExSerdeNumber(serde_json::Number);

/// What `serde_json::from_str::<serde_json::Value>` yields for a text, as a
/// plain tree (`None` when the text is not one JSON document).
pub uninterp spec fn spec_parse_json(text: Seq<char>) -> Option<JsonValue>;

/// The compact JSON text of a list of strings: `[`, the strings quoted and
/// separated by commas, `]`.
pub open spec fn string_list_text(ids: Seq<Seq<char>>) -> Seq<char> {
    seq!['['] + join_spec(ids.map_values(|id: Seq<char>| quoted(id)), seq![',']) + seq![']']
}

/// `v` is an array of exactly these strings.
pub open spec fn string_list_tree(v: JsonValue, ids: Seq<Seq<char>>) -> bool {
    match v {
        JsonValue::Array(a) => a@.len() == ids.len() && forall|i: int|
            0 <= i < ids.len() ==> (#[trigger] a@[i]).str_spec() == Some(ids[i]),
        _ => false,
    }
}

/// The parse gave an array of exactly these strings.
pub open spec fn parsed_list(r: Option<JsonValue>, ids: Seq<Seq<char>>) -> bool {
    r matches Some(v) && string_list_tree(v, ids)
}

/// The parse gave an array of the limits' objects.
pub open spec fn parsed_limits(r: Option<JsonValue>, ls: Seq<UsageLimitModel>) -> bool {
    r matches Some(v) && limits_tree(v, ls)
}

/// Parses one JSON document with `serde_json::from_str` into a
/// `serde_json::Value` and hands it over as a plain tree. The contract
/// names the result (the JSON grammar is serde_json's) and states what the
/// parser gives for the two texts the library writes itself: a compact
/// array of quoted strings parses to an array of those strings, and the
/// cached limits text parses to an array of objects holding each limit's
/// fields (strings unescaped, the percentage an integer, a missing reset
/// time `null`).
#[verifier::external_body]
pub(crate) fn parse_json(text: &str) -> (r: Option<JsonValue>)
    ensures
        r == spec_parse_json(text@),
        forall|ids: Seq<Seq<char>>| #[trigger] string_list_text(ids) == text@ ==> parsed_list(r, ids),
        forall|ls: Seq<UsageLimitModel>| #[trigger] limits_text(ls) == text@ ==> parsed_limits(r, ls),
{
    serde_json::from_str::<serde_json::Value>(text).ok().map(from_serde)
}

/// Node-for-node conversion of a `serde_json::Value` into the plain tree;
/// only `parse_json` uses it.
#[verifier::external_body]
fn from_serde(v: serde_json::Value) -> JsonValue {
    match v {
        serde_json::Value::Null => JsonValue::Null,
        serde_json::Value::Bool(b) => JsonValue::Bool(b),
        serde_json::Value::Number(n) => JsonValue::Number(number_from_serde(n)),
        serde_json::Value::String(s) => JsonValue::Str(s),
        serde_json::Value::Array(a) => JsonValue::Array(a.into_iter().map(from_serde).collect()),
        serde_json::Value::Object(o) => JsonValue::Object(
            o.into_iter().map(|(key, x)| JsonMember { key, value: from_serde(x) }).collect(),
        ),
    }
}

/// Conversion of a `serde_json::Number`: which of its three storage
/// variants holds it (told apart by `as_u64` and `as_i64`), and its
/// `Display` text; only `from_serde` uses it.
#[verifier::external_body]
fn number_from_serde(n: serde_json::Number) -> JsonNumber {
    let kind = match (n.as_u64(), n.as_i64()) {
        (Some(u), _) => NumberKind::PosInt(u),
        (None, Some(i)) => NumberKind::NegInt(i),
        (None, None) => NumberKind::Float,
    };
    JsonNumber { kind, text: n.to_string() }
}

/// The value stored under `key` in a member list (the first such member).
pub open spec fn member_lookup(ms: Seq<JsonMember>, key: Seq<char>) -> Option<JsonValue>
    decreases ms.len(),
{
    if ms.len() == 0 {
        None
    } else if ms[0].key@ == key {
        Some(ms[0].value)
    } else {
        member_lookup(ms.drop_first(), key)
    }
}

/// `Option<&JsonValue>` read as an optional value.
pub open spec fn opt_deref(r: Option<&JsonValue>) -> Option<JsonValue> {
    match r {
        Some(v) => Some(*v),
        None => None,
    }
}

/// Looks `key` up in a member list (the first such member).
pub fn lookup<'a>(ms: &'a Vec<JsonMember>, key: &str) -> (r: Option<&'a JsonValue>)
    ensures
        opt_deref(r) == member_lookup(ms@, key@),
{
    let n = ms.len();
    let mut i: usize = 0;
    assert(ms@.skip(0) == ms@);
    while i < n
        invariant
            n == ms@.len(),
            i <= n,
            member_lookup(ms@, key@) == member_lookup(ms@.skip(i as int), key@),
        decreases n - i,
    {
        assert(ms@.skip(i as int).drop_first() == ms@.skip(i + 1));
        assert(ms@.skip(i as int)[0] == ms@[i as int]);
        if str_eq(ms[i].key.as_str(), key) {
            return Some(&ms[i].value);
        }
        i += 1;
    }
    None
}

impl JsonNumber {
    /// `serde_json::Number::as_i64`: integers that fit in `i64`.
    pub open spec fn int_spec(self) -> Option<i64> {
        match self.kind {
            NumberKind::PosInt(u) => if u <= i64::MAX {
                Some(u as i64)
            } else {
                None
            },
            NumberKind::NegInt(i) => Some(i),
            NumberKind::Float => None,
        }
    }

    pub fn as_i64(&self) -> (r: Option<i64>)
        ensures
            r == self.int_spec(),
    {
        match self.kind {
            NumberKind::PosInt(u) => if u <= 0x7fff_ffff_ffff_ffffu64 {
                Some(u as i64)
            } else {
                None
            },
            NumberKind::NegInt(i) => Some(i),
            NumberKind::Float => None,
        }
    }
}

impl JsonValue {
    /// `Value::get(key)`: the member named `key` of an object, else nothing.
    pub open spec fn field(self, key: Seq<char>) -> Option<JsonValue> {
        match self {
            JsonValue::Object(ms) => member_lookup(ms@, key),
            _ => None,
        }
    }

    /// `Value::as_str`.
    pub open spec fn str_spec(self) -> Option<Seq<char>> {
        match self {
            JsonValue::Str(s) => Some(s@),
            _ => None,
        }
    }

    /// `Value::as_i64`.
    pub open spec fn int_spec(self) -> Option<i64> {
        match self {
            JsonValue::Number(n) => n.int_spec(),
            _ => None,
        }
    }

    /// `Value::as_bool`.
    pub open spec fn bool_spec(self) -> Option<bool> {
        match self {
            JsonValue::Bool(b) => Some(b),
            _ => None,
        }
    }

    /// `Value::as_array`.
    pub open spec fn items_spec(self) -> Option<Seq<JsonValue>> {
        match self {
            JsonValue::Array(a) => Some(a@),
            _ => None,
        }
    }

    /// The string under `key`, if that member exists and is a string.
    pub open spec fn str_field(self, key: Seq<char>) -> Option<Seq<char>> {
        match self.field(key) {
            Some(v) => v.str_spec(),
            None => None,
        }
    }

    pub fn get(&self, key: &str) -> (r: Option<&JsonValue>)
        ensures
            opt_deref(r) == self.field(key@),
    {
        match self {
            JsonValue::Object(ms) => {
                let n = ms.len();
                let mut i: usize = 0;
                assert(ms@.skip(0) == ms@);
                while i < n
                    invariant
                        n == ms@.len(),
                        i <= n,
                        self.field(key@) == member_lookup(ms@, key@),
                        member_lookup(ms@, key@) == member_lookup(ms@.skip(i as int), key@),
                    decreases n - i,
                {
                    assert(ms@.skip(i as int).drop_first() == ms@.skip(i + 1));
                    assert(ms@.skip(i as int)[0] == ms@[i as int]);
                    if str_eq(ms[i].key.as_str(), key) {
                        return Some(&ms[i].value);
                    }
                    i += 1;
                }
                None
            },
            _ => None,
        }
    }

    pub fn as_str(&self) -> (r: Option<&str>)
        ensures
            match r {
                Some(s) => self.str_spec() == Some(s@),
                None => self.str_spec() is None,
            },
    {
        match self {
            JsonValue::Str(s) => Some(s.as_str()),
            _ => None,
        }
    }

    pub fn as_i64(&self) -> (r: Option<i64>)
        ensures
            r == self.int_spec(),
    {
        match self {
            JsonValue::Number(n) => n.as_i64(),
            _ => None,
        }
    }

    pub fn as_bool(&self) -> (r: Option<bool>)
        ensures
            r == self.bool_spec(),
    {
        match self {
            JsonValue::Bool(b) => Some(*b),
            _ => None,
        }
    }

    pub fn as_array(&self) -> (r: Option<&Vec<JsonValue>>)
        ensures
            match r {
                Some(a) => self.items_spec() == Some(a@),
                None => self.items_spec() is None,
            },
    {
        match self {
            JsonValue::Array(a) => Some(a),
            _ => None,
        }
    }

    /// The string under `key`, if that member exists and is a string.
    pub fn get_str(&self, key: &str) -> (r: Option<&str>)
        ensures
            match r {
                Some(s) => self.str_field(key@) == Some(s@),
                None => self.str_field(key@) is None,
            },
    {
        match self.get(key) {
            Some(v) => v.as_str(),
            None => None,
        }
    }
}

// ---------------------------------------------------------------------------
// Equality (serde_json's `PartialEq` for `Value`)
// ---------------------------------------------------------------------------

/// Whether serde_json's `Value` equality holds between the values that two
/// trees stand for.
pub uninterp spec fn spec_values_equal(a: JsonValue, b: JsonValue) -> bool;

/// serde_json's `PartialEq` for `Value`, on the values the two trees stand
/// for. The contract names the result and states that a tree equals
/// itself (the equality is derived, and serde_json's numbers are finite).
#[verifier::external_body]
pub(crate) fn json_equal(a: &JsonValue, b: &JsonValue) -> (r: bool)
    ensures
        r == spec_values_equal(*a, *b),
        *a == *b ==> r,
{
    to_serde(a) == to_serde(b)
}

/// Node-for-node conversion of the plain tree back into a
/// `serde_json::Value` (a number from its own text); only `json_equal`
/// and `json_to_string` use it.
#[verifier::external_body]
fn to_serde(v: &JsonValue) -> serde_json::Value {
    match v {
        JsonValue::Null => serde_json::Value::Null,
        JsonValue::Bool(b) => serde_json::Value::Bool(*b),
        JsonValue::Number(n) => n.text.parse::<serde_json::Number>().map_or(serde_json::Value::Null, serde_json::Value::Number),
        JsonValue::Str(s) => serde_json::Value::String(s.clone()),
        JsonValue::Array(a) => serde_json::Value::Array(a.iter().map(to_serde).collect()),
        JsonValue::Object(m) => serde_json::Value::Object(m.iter().map(|x| (x.key.clone(), to_serde(&x.value))).collect()),
    }
}

// ---------------------------------------------------------------------------
// JSON text
// ---------------------------------------------------------------------------

/// Lower-case hexadecimal digit of `n < 16`.
pub open spec fn hex_digit(n: int) -> char {
    if n < 10 {
        (n + 48) as char
    } else {
        (n + 87) as char
    }
}

/// How one character of a string is written inside a JSON string literal:
/// quote and backslash escaped, the control characters as `\b \t \n \f \r`
/// or `\u00XX`, everything else as itself.
pub open spec fn escape_char(c: char) -> Seq<char> {
    if c == '"' {
        seq!['\\', '"']
    } else if c == '\\' {
        seq!['\\', '\\']
    } else if c == '\u{8}' {
        seq!['\\', 'b']
    } else if c == '\t' {
        seq!['\\', 't']
    } else if c == '\n' {
        seq!['\\', 'n']
    } else if c == '\u{c}' {
        seq!['\\', 'f']
    } else if c == '\r' {
        seq!['\\', 'r']
    } else if (c as u32) < 0x20 {
        seq!['\\', 'u', '0', '0', hex_digit((c as u32) as int / 16), hex_digit((c as u32) as int % 16)]
    } else {
        seq![c]
    }
}

pub open spec fn escaped(s: Seq<char>) -> Seq<char>
    decreases s.len(),
{
    if s.len() == 0 {
        seq![]
    } else {
        escaped(s.drop_last()) + escape_char(s.last())
    }
}

/// A string as a JSON string literal.
pub open spec fn quoted(s: Seq<char>) -> Seq<char> {
    seq!['"'] + escaped(s) + seq!['"']
}

fn hex_char(n: u32) -> (c: char)
    requires
        n < 16,
    ensures
        c == hex_digit(n as int),
{
    if n < 10 {
        char_of(n + 48)
    } else {
        char_of(n + 87)
    }
}

/// The character with an ASCII code point.
fn char_of(n: u32) -> (c: char)
    requires
        n < 128,
    ensures
        c == n as char,
{
    let b: u8 = n as u8;
    b as char
}

fn push_seq(out: &mut Vec<char>, cs: &[char])
    ensures
        final(out)@ == old(out)@ + cs@,
{
    let mut i: usize = 0;
    while i < cs.len()
        invariant
            i <= cs@.len(),
            out@ == old(out)@ + cs@.take(i as int),
        decreases cs.len() - i,
    {
        out.push(cs[i]);
        i += 1;
        assert(cs@.take(i as int) == cs@.take(i - 1) + seq![cs@[i - 1]]);
    }
    assert(cs@.take(cs@.len() as int) == cs@);
}

fn push_escaped_char(out: &mut Vec<char>, c: char)
    ensures
        final(out)@ == old(out)@ + escape_char(c),
{
    if c == '"' {
        push_seq(out, &['\\', '"']);
    } else if c == '\\' {
        push_seq(out, &['\\', '\\']);
    } else if c == '\u{8}' {
        push_seq(out, &['\\', 'b']);
    } else if c == '\t' {
        push_seq(out, &['\\', 't']);
    } else if c == '\n' {
        push_seq(out, &['\\', 'n']);
    } else if c == '\u{c}' {
        push_seq(out, &['\\', 'f']);
    } else if c == '\r' {
        push_seq(out, &['\\', 'r']);
    } else if (c as u32) < 0x20 {
        let code = c as u32;
        let hi = hex_char(code / 16);
        let lo = hex_char(code % 16);
        push_seq(out, &['\\', 'u', '0', '0', hi, lo]);
    } else {
        out.push(c);
    }
}

/// Appends `s` as a JSON string literal.
pub fn push_quoted(out: &mut Vec<char>, s: &str)
    ensures
        final(out)@ == old(out)@ + quoted(s@),
{
    let cs = crate::text::chars_of(s);
    out.push('"');
    let ghost start = out@;
    let mut i: usize = 0;
    while i < cs.len()
        invariant
            i <= cs@.len(),
            cs@ == s@,
            out@ == start + escaped(cs@.take(i as int)),
        decreases cs.len() - i,
    {
        assert(cs@.take(i + 1).drop_last() == cs@.take(i as int));
        push_escaped_char(out, cs[i]);
        i += 1;
    }
    assert(cs@.take(cs@.len() as int) == cs@);
    out.push('"');
}

/// What serde_json's `Display` gives for the value a tree stands for (its
/// compact JSON text).
pub uninterp spec fn spec_json_text(v: JsonValue) -> Seq<char>;

/// `value.to_string()`: serde_json's compact JSON text of the value a tree
/// stands for. The contract names the text, which depends on the tree
/// alone.
#[verifier::external_body]
pub(crate) fn json_to_string(v: &JsonValue) -> (r: String)
    ensures
        r@ == spec_json_text(*v),
{
    to_serde(v).to_string()
}

} // verus!
