//! The serialization contract consumed from schema-derived types, and the
//! field conversions it is built from.
//!
//! A schema type deserializes itself from a JSON document — ignoring
//! unknown object keys, so that newer server schema versions stay readable
//! — and serializes itself back to its wire JSON form.  Both directions are
//! pinned to a specification-level model of the type.

use vstd::prelude::*;
use vstd::utf8::decode_utf8;
use vstd::utf8::encode_utf8;
use vstd::utf8::valid_utf8;

use crate::codec::spec_b64_decode;
use crate::codec::spec_b64_valid;
use crate::codec::ByteString;
use crate::error::JsonFault;
use crate::error::SchemaFault;
use crate::json::view_json;
use crate::json::view_json_seq;
use crate::json::JsonValue;
use crate::json::SpecJson;
use crate::json::DOT;

verus! {

broadcast use vstd::seq::group_seq_axioms;

/// The deserialization half of the contract: a value can produce itself
/// from a JSON document, ignoring unknown keys and reporting a missing
/// mandatory key, a wrongly shaped value, or badly encoded text.
pub trait FromJson: Sized + View {
    /// What deserializing the given document yields: the model of the
    /// value, or the schema fault.
    spec fn spec_from_json(v: SpecJson) -> Result<Self::V, SchemaFault>;

    /// Deserializes a JSON document into a value.
    fn from_json(v: &JsonValue) -> (r: Result<Self, SchemaFault>)
        ensures
            match Self::spec_from_json(view_json(*v)) {
                Ok(m) => match r {
                    Ok(x) => x@ == m,
                    Err(e) => false,
                },
                Err(f) => r == Err::<Self, SchemaFault>(f),
            },
    ;
}

/// The serialization half of the contract: a value can write itself to its
/// wire JSON form.  Serialization is total.
pub trait ToJson: View {
    /// The wire JSON form of a model value.
    spec fn spec_to_json(m: Self::V) -> SpecJson;

    /// Serializes the value to its wire JSON form.
    fn to_json(&self) -> (r: JsonValue)
        ensures
            view_json(r) == Self::spec_to_json(self@),
    ;
}

/// Relies on `str::from_utf8`: it succeeds exactly on valid UTF-8 and
/// returns the text those bytes denote.
#[verifier::external_body]
fn utf8_to_str(v: &[u8]) -> (r: Option<&str>)
    ensures
        r is Some <==> valid_utf8(v@),
        match r {
            Some(s) => s@ == decode_utf8(v@),
            None => true,
        },
{
    std::str::from_utf8(v).ok()
}

/// The text denoted by the bytes, owned, when they are valid UTF-8.
pub fn utf8_to_string(v: &[u8]) -> (r: Option<String>)
    ensures
        r is Some <==> valid_utf8(v@),
        match r {
            Some(s) => s@ == decode_utf8(v@),
            None => true,
        },
{
    match utf8_to_str(v) {
        Some(s) => Some(s.to_owned()),
        None => None,
    }
}

/// The model of an optional text value.
pub open spec fn view_opt_string(v: Option<String>) -> Option<Seq<char>> {
    match v {
        Some(s) => Some(s@),
        None => None,
    }
}

/// The model of an optional list of text values.
pub open spec fn view_opt_string_seq(v: Option<Vec<String>>) -> Option<Seq<Seq<char>>> {
    match v {
        Some(s) => Some(s.deep_view()),
        None => None,
    }
}

/// The model of an optional list of integers.
pub open spec fn view_opt_i64_seq(v: Option<Vec<i64>>) -> Option<Seq<i64>> {
    match v {
        Some(s) => Some(s@),
        None => None,
    }
}

/// Whether a number's raw text denotes an integer: it has no fraction and
/// no exponent marker.
pub open spec fn spec_num_integral(t: Seq<u8>) -> bool {
    forall|q: int| 0 <= q < t.len() ==> t[q] != DOT && t[q] != 0x65 && t[q] != 0x45
}

/// Whether a number's raw text denotes an integer.
pub fn num_integral(t: &Vec<u8>) -> (r: bool)
    ensures
        r == spec_num_integral(t@),
{
    let n = t.len();
    let mut q: usize = 0;
    while q < n
        invariant
            0 <= q <= n,
            n == t@.len(),
            forall|w: int| 0 <= w < q ==> t@[w] != DOT && t@[w] != 0x65 && t@[w] != 0x45,
        decreases n - q,
    {
        if t[q] == DOT || t[q] == 0x65 || t[q] == 0x45 {
            return false;
        }
        q += 1;
    }
    true
}

/// The fault an integer field reports for a number it cannot hold: an
/// integral number kept as raw text is out of the 64-bit range, and a
/// fractional or exponent form has the wrong shape.
pub open spec fn spec_num_fault(t: Seq<u8>) -> SchemaFault {
    if spec_num_integral(t) {
        SchemaFault::Json(JsonFault::IntOutOfRange)
    } else {
        SchemaFault::Json(JsonFault::WrongType)
    }
}

/// An optional 64-bit integer field: `null` stands for absent, and an
/// integral number beyond the 64-bit range is out of range.
pub open spec fn spec_opt_i64(v: SpecJson) -> Result<Option<i64>, SchemaFault> {
    match v {
        SpecJson::Null => Ok(None),
        SpecJson::Int(n) => if i64::MIN <= n <= i64::MAX {
            Ok(Some(n as i64))
        } else {
            Err(SchemaFault::Json(JsonFault::IntOutOfRange))
        },
        SpecJson::Num(t) => Err(spec_num_fault(t)),
        _ => Err(SchemaFault::Json(JsonFault::WrongType)),
    }
}

/// Reads an optional 64-bit integer field.
pub fn conv_opt_i64(v: &JsonValue) -> (r: Result<Option<i64>, SchemaFault>)
    ensures
        r == spec_opt_i64(view_json(*v)),
{
    match v {
        JsonValue::Null => Ok(None),
        JsonValue::Int(n) => Ok(Some(*n)),
        JsonValue::Num(t) => if num_integral(t) {
            Err(SchemaFault::Json(JsonFault::IntOutOfRange))
        } else {
            Err(SchemaFault::Json(JsonFault::WrongType))
        },
        _ => Err(SchemaFault::Json(JsonFault::WrongType)),
    }
}

/// An optional 32-bit integer field: `null` stands for absent, and a value
/// outside the 32-bit range is out of range.
pub open spec fn spec_opt_i32(v: SpecJson) -> Result<Option<i32>, SchemaFault> {
    match v {
        SpecJson::Null => Ok(None),
        SpecJson::Int(n) => if i32::MIN <= n <= i32::MAX {
            Ok(Some(n as i32))
        } else {
            Err(SchemaFault::Json(JsonFault::IntOutOfRange))
        },
        SpecJson::Num(t) => Err(spec_num_fault(t)),
        _ => Err(SchemaFault::Json(JsonFault::WrongType)),
    }
}

/// Reads an optional 32-bit integer field.
pub fn conv_opt_i32(v: &JsonValue) -> (r: Result<Option<i32>, SchemaFault>)
    ensures
        r == spec_opt_i32(view_json(*v)),
{
    match v {
        JsonValue::Null => Ok(None),
        JsonValue::Int(n) => if i32::MIN as i64 <= *n && *n <= i32::MAX as i64 {
            Ok(Some(*n as i32))
        } else {
            Err(SchemaFault::Json(JsonFault::IntOutOfRange))
        },
        JsonValue::Num(t) => if num_integral(t) {
            Err(SchemaFault::Json(JsonFault::IntOutOfRange))
        } else {
            Err(SchemaFault::Json(JsonFault::WrongType))
        },
        _ => Err(SchemaFault::Json(JsonFault::WrongType)),
    }
}

/// An optional boolean field: `null` stands for absent.
pub open spec fn spec_opt_bool(v: SpecJson) -> Result<Option<bool>, SchemaFault> {
    match v {
        SpecJson::Null => Ok(None),
        SpecJson::Bool(x) => Ok(Some(x)),
        _ => Err(SchemaFault::Json(JsonFault::WrongType)),
    }
}

/// Reads an optional boolean field.
pub fn conv_opt_bool(v: &JsonValue) -> (r: Result<Option<bool>, SchemaFault>)
    ensures
        r == spec_opt_bool(view_json(*v)),
{
    match v {
        JsonValue::Null => Ok(None),
        JsonValue::Bool(x) => Ok(Some(*x)),
        _ => Err(SchemaFault::Json(JsonFault::WrongType)),
    }
}

/// A mandatory text field: the string's bytes decoded as UTF-8.
pub open spec fn spec_string(v: SpecJson) -> Result<Seq<char>, SchemaFault> {
    match v {
        SpecJson::Str(bytes) => if valid_utf8(bytes) {
            Ok(decode_utf8(bytes))
        } else {
            Err(SchemaFault::Utf8)
        },
        _ => Err(SchemaFault::Json(JsonFault::WrongType)),
    }
}

/// Reads a mandatory text field.
pub fn conv_string(v: &JsonValue) -> (r: Result<String, SchemaFault>)
    ensures
        match spec_string(view_json(*v)) {
            Ok(m) => match r {
                Ok(s) => s@ == m,
                Err(e) => false,
            },
            Err(f) => r == Err::<String, SchemaFault>(f),
        },
{
    match v {
        JsonValue::Str(bytes) => match utf8_to_string(bytes.as_slice()) {
            Some(s) => Ok(s),
            None => Err(SchemaFault::Utf8),
        },
        _ => Err(SchemaFault::Json(JsonFault::WrongType)),
    }
}

/// An optional text field: `null` stands for absent.
pub open spec fn spec_opt_string(v: SpecJson) -> Result<Option<Seq<char>>, SchemaFault> {
    match v {
        SpecJson::Null => Ok(None),
        _ => match spec_string(v) {
            Ok(m) => Ok(Some(m)),
            Err(f) => Err(f),
        },
    }
}

/// Reads an optional text field.
pub fn conv_opt_string(v: &JsonValue) -> (r: Result<Option<String>, SchemaFault>)
    ensures
        match spec_opt_string(view_json(*v)) {
            Ok(m) => match r {
                Ok(None) => m is None,
                Ok(Some(s)) => m matches Some(ms) && s@ == ms,
                Err(e) => false,
            },
            Err(f) => r == Err::<Option<String>, SchemaFault>(f),
        },
{
    match v {
        JsonValue::Null => Ok(None),
        _ => match conv_string(v) {
            Ok(s) => Ok(Some(s)),
            Err(f) => Err(f),
        },
    }
}

/// A mandatory byte-string field: base64 text denoting bytes.
pub open spec fn spec_byte_string(v: SpecJson) -> Result<Seq<u8>, SchemaFault> {
    match v {
        SpecJson::Str(text) => if spec_b64_valid(text) {
            Ok(spec_b64_decode(text))
        } else {
            Err(SchemaFault::Json(JsonFault::InvalidEncoding))
        },
        _ => Err(SchemaFault::Json(JsonFault::WrongType)),
    }
}

/// Reads a mandatory byte-string field.
pub fn conv_byte_string(v: &JsonValue) -> (r: Result<ByteString, SchemaFault>)
    ensures
        match spec_byte_string(view_json(*v)) {
            Ok(m) => match r {
                Ok(s) => s@ == m,
                Err(e) => false,
            },
            Err(f) => r == Err::<ByteString, SchemaFault>(f),
        },
{
    match v {
        JsonValue::Str(text) => match ByteString::from_base64(text.as_slice()) {
            Ok(s) => Ok(s),
            Err(f) => Err(SchemaFault::Json(f)),
        },
        _ => Err(SchemaFault::Json(JsonFault::WrongType)),
    }
}

/// The elements of an array of 64-bit integers.
pub open spec fn spec_i64_items(items: Seq<SpecJson>) -> Result<Seq<i64>, SchemaFault>
    decreases items.len(),
{
    if items.len() == 0 {
        Ok(Seq::empty())
    } else {
        match items[0] {
            SpecJson::Int(n) => if i64::MIN <= n <= i64::MAX {
                match spec_i64_items(items.drop_first()) {
                    Ok(rest) => Ok(seq![n as i64] + rest),
                    Err(f) => Err(f),
                }
            } else {
                Err(SchemaFault::Json(JsonFault::IntOutOfRange))
            },
            SpecJson::Num(t) => Err(spec_num_fault(t)),
            _ => Err(SchemaFault::Json(JsonFault::WrongType)),
        }
    }
}

/// An optional array-of-integers field: `null` stands for absent.
pub open spec fn spec_opt_i64_seq(v: SpecJson) -> Result<Option<Seq<i64>>, SchemaFault> {
    match v {
        SpecJson::Null => Ok(None),
        SpecJson::Arr(items) => match spec_i64_items(items) {
            Ok(xs) => Ok(Some(xs)),
            Err(f) => Err(f),
        },
        _ => Err(SchemaFault::Json(JsonFault::WrongType)),
    }
}

/// Reads the elements of an array of 64-bit integers, from `idx` on.
fn conv_i64_items(items: &Vec<JsonValue>, idx: usize) -> (r: Result<Vec<i64>, SchemaFault>)
    requires
        idx <= items@.len(),
    ensures
        ({
            let m = spec_i64_items(view_json_seq(items@).skip(idx as int));
            match m {
                Ok(xs) => match r {
                    Ok(out) => out@ == xs,
                    Err(e) => false,
                },
                Err(f) => r == Err::<Vec<i64>, SchemaFault>(f),
            }
        }),
    decreases items@.len() - idx,
{
    proof {
        crate::json::lemma_view_json_seq(items@);
    }
    if idx == items.len() {
        let out: Vec<i64> = Vec::new();
        assert(out@ =~= Seq::<i64>::empty());
        return Ok(out);
    }
    let ghost tail = view_json_seq(items@).skip(idx as int);
    proof {
        assert(tail[0] == view_json(items@[idx as int]));
        assert(tail.drop_first() =~= view_json_seq(items@).skip(idx as int + 1));
    }
    match &items[idx] {
        JsonValue::Int(n) => {
            let x: i64 = *n;
            match conv_i64_items(items, idx + 1) {
                Ok(mut rest) => {
                    let ghost restview = rest@;
                    rest.insert(0, x);
                    assert(rest@ =~= seq![x] + restview);
                    Ok(rest)
                },
                Err(f) => Err(f),
            }
        },
        JsonValue::Num(t) => if num_integral(t) {
            Err(SchemaFault::Json(JsonFault::IntOutOfRange))
        } else {
            Err(SchemaFault::Json(JsonFault::WrongType))
        },
        _ => Err(SchemaFault::Json(JsonFault::WrongType)),
    }
}

/// Reads an optional array-of-integers field.
pub fn conv_opt_i64_seq(v: &JsonValue) -> (r: Result<Option<Vec<i64>>, SchemaFault>)
    ensures
        match spec_opt_i64_seq(view_json(*v)) {
            Ok(m) => match r {
                Ok(None) => m is None,
                Ok(Some(out)) => m matches Some(xs) && out@ == xs,
                Err(e) => false,
            },
            Err(f) => r == Err::<Option<Vec<i64>>, SchemaFault>(f),
        },
{
    match v {
        JsonValue::Null => Ok(None),
        JsonValue::Arr(items) => {
            proof {
                assert(view_json_seq(items@).skip(0) =~= view_json_seq(items@));
            }
            match conv_i64_items(items, 0) {
                Ok(out) => Ok(Some(out)),
                Err(f) => Err(f),
            }
        },
        _ => Err(SchemaFault::Json(JsonFault::WrongType)),
    }
}

/// The elements of an array of strings.
pub open spec fn spec_string_items(items: Seq<SpecJson>) -> Result<Seq<Seq<char>>, SchemaFault>
    decreases items.len(),
{
    if items.len() == 0 {
        Ok(Seq::empty())
    } else {
        match spec_string(items[0]) {
            Ok(m) => match spec_string_items(items.drop_first()) {
                Ok(rest) => Ok(seq![m] + rest),
                Err(f) => Err(f),
            },
            Err(f) => Err(f),
        }
    }
}

/// An optional array-of-strings field: `null` stands for absent.
pub open spec fn spec_opt_string_seq(v: SpecJson) -> Result<Option<Seq<Seq<char>>>, SchemaFault> {
    match v {
        SpecJson::Null => Ok(None),
        SpecJson::Arr(items) => match spec_string_items(items) {
            Ok(xs) => Ok(Some(xs)),
            Err(f) => Err(f),
        },
        _ => Err(SchemaFault::Json(JsonFault::WrongType)),
    }
}

/// Reads the elements of an array of strings, from `idx` on.
pub(crate) fn conv_string_items(items: &Vec<JsonValue>, idx: usize) -> (r: Result<Vec<String>, SchemaFault>)
    requires
        idx <= items@.len(),
    ensures
        ({
            let m = spec_string_items(view_json_seq(items@).skip(idx as int));
            match m {
                Ok(xs) => match r {
                    Ok(out) => out.deep_view() == xs,
                    Err(e) => false,
                },
                Err(f) => r == Err::<Vec<String>, SchemaFault>(f),
            }
        }),
    decreases items@.len() - idx,
{
    proof {
        crate::json::lemma_view_json_seq(items@);
    }
    if idx == items.len() {
        let out: Vec<String> = Vec::new();
        assert(out.deep_view() =~= Seq::<Seq<char>>::empty());
        return Ok(out);
    }
    let ghost tail = view_json_seq(items@).skip(idx as int);
    proof {
        assert(tail[0] == view_json(items@[idx as int]));
        assert(tail.drop_first() =~= view_json_seq(items@).skip(idx as int + 1));
    }
    match conv_string(&items[idx]) {
        Ok(s) => {
            let ghost gs = s@;
            match conv_string_items(items, idx + 1) {
                Ok(mut rest) => {
                    let ghost restview = rest.deep_view();
                    rest.insert(0, s);
                    assert(rest.deep_view() =~= seq![gs] + restview);
                    Ok(rest)
                },
                Err(f) => Err(f),
            }
        },
        Err(f) => Err(f),
    }
}

/// Reads an optional array-of-strings field.
pub fn conv_opt_string_seq(v: &JsonValue) -> (r: Result<Option<Vec<String>>, SchemaFault>)
    ensures
        match spec_opt_string_seq(view_json(*v)) {
            Ok(m) => match r {
                Ok(None) => m is None,
                Ok(Some(out)) => m matches Some(xs) && out.deep_view() == xs,
                Err(e) => false,
            },
            Err(f) => r == Err::<Option<Vec<String>>, SchemaFault>(f),
        },
{
    match v {
        JsonValue::Null => Ok(None),
        JsonValue::Arr(items) => {
            proof {
                assert(view_json_seq(items@).skip(0) =~= view_json_seq(items@));
            }
            match conv_string_items(items, 0) {
                Ok(out) => Ok(Some(out)),
                Err(f) => Err(f),
            }
        },
        _ => Err(SchemaFault::Json(JsonFault::WrongType)),
    }
}

} // verus!
