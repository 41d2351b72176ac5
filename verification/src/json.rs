//! A JSON document model and an incremental parser over raw bytes.
//!
//! The wire payload of the remote API is a UTF-8 JSON body.  The parser
//! works directly on the byte buffer accumulated from the transport and
//! distinguishes three outcomes: a complete value, "the bytes so far are a
//! valid but incomplete prefix" (the caller must read more), and "the bytes
//! are malformed" (terminal).
//!
//! The grammar is full JSON.  Numbers are classified rather than computed
//! on: an integral number in the 64-bit range becomes an integer (the
//! payload schemas carry 64-bit integers), and any other number — a
//! fractional or exponent form, or an integer beyond that range — keeps its
//! raw text, so that it can be carried through or rejected field by field.
//! String contents are kept as raw (unescaped) bytes; conversion to text
//! happens at the schema layer, where an encoding error is reported
//! separately from a syntax error.

use vstd::prelude::*;
use vstd::utf8::encode_scalar;

verus! {

broadcast use vstd::std_specs::vec::group_vec_axioms, vstd::seq::group_seq_axioms;

/// Opening brace `{`.
pub const LBRACE: u8 = 0x7b;

/// Closing brace `}`.
pub const RBRACE: u8 = 0x7d;

/// Opening bracket `[`.
pub const LBRACK: u8 = 0x5b;

/// Closing bracket `]`.
pub const RBRACK: u8 = 0x5d;

/// Double quote `"`.
pub const QUOTE: u8 = 0x22;

/// Backslash.
pub const BACKSLASH: u8 = 0x5c;

/// Colon `:`.
pub const COLON: u8 = 0x3a;

/// Comma `,`.
pub const COMMA: u8 = 0x2c;

/// Minus sign `-`.
pub const MINUS: u8 = 0x2d;

/// Plus sign `+`.
pub const PLUS: u8 = 0x2b;

/// Decimal point `.`.
pub const DOT: u8 = 0x2e;

/// Digit `0`.
pub const DIGIT0: u8 = 0x30;

/// Digit `9`.
pub const DIGIT9: u8 = 0x39;

/// A JSON value as held in memory.
///
/// Object members are kept as a list of key/value pairs in wire order;
/// strings and keys are kept as their raw (unescaped) bytes.
#[derive(Debug)]
pub enum JsonValue {
    /// The literal `null`.
    Null,
    /// `true` or `false`.
    Bool(bool),
    /// An integer within the 64-bit range.
    Int(i64),
    /// A number that is not such an integer — a fractional or exponent
    /// form, or an integer outside the 64-bit range — kept as its raw text.
    Num(Vec<u8>),
    /// The unescaped bytes of a string.
    Str(Vec<u8>),
    /// An array of values.
    Arr(Vec<JsonValue>),
    /// An object: key/value pairs in the order they appear on the wire.
    Obj(Vec<(Vec<u8>, JsonValue)>),
}

/// The mathematical model of a [`JsonValue`].
pub enum SpecJson {
    /// The literal `null`.
    Null,
    /// `true` or `false`.
    Bool(bool),
    /// An integer within the 64-bit range.
    Int(int),
    /// A number that is not such an integer, as its raw text.
    Num(Seq<u8>),
    /// The unescaped bytes of a string.
    Str(Seq<u8>),
    /// An array of values.
    Arr(Seq<SpecJson>),
    /// An object: key/value pairs in wire order.
    Obj(Seq<(Seq<u8>, SpecJson)>),
}

/// The model of a [`JsonValue`]: the same tree over `Seq` and `int`.
pub open spec fn view_json(v: JsonValue) -> SpecJson
    decreases v,
{
    match v {
        JsonValue::Null => SpecJson::Null,
        JsonValue::Bool(x) => SpecJson::Bool(x),
        JsonValue::Int(n) => SpecJson::Int(n as int),
        JsonValue::Num(t) => SpecJson::Num(t@),
        JsonValue::Str(s) => SpecJson::Str(s@),
        JsonValue::Arr(items) => SpecJson::Arr(view_json_seq(items@)),
        JsonValue::Obj(members) => SpecJson::Obj(view_json_members(members@)),
    }
}

/// The models of a sequence of values, element by element.
pub open spec fn view_json_seq(s: Seq<JsonValue>) -> Seq<SpecJson>
    decreases s,
{
    if s.len() == 0 {
        Seq::empty()
    } else {
        seq![view_json(s[0])] + view_json_seq(s.drop_first())
    }
}

/// The models of a sequence of key/value pairs, element by element.
pub open spec fn view_json_members(s: Seq<(Vec<u8>, JsonValue)>) -> Seq<(Seq<u8>, SpecJson)>
    decreases s,
{
    if s.len() == 0 {
        Seq::empty()
    } else {
        seq![(s[0].0@, view_json(s[0].1))] + view_json_members(s.drop_first())
    }
}

/// Sequence views keep the length and model elements pointwise.
pub proof fn lemma_view_json_seq(s: Seq<JsonValue>)
    ensures
        view_json_seq(s).len() == s.len(),
        forall|i: int| 0 <= i < s.len() ==> view_json_seq(s)[i] == view_json(s[i]),
    decreases s.len(),
{
    if s.len() > 0 {
        lemma_view_json_seq(s.drop_first());
    }
}

/// Putting an element in front models the element in front.
pub proof fn lemma_view_json_seq_cons(v: JsonValue, s: Seq<JsonValue>)
    ensures
        view_json_seq(seq![v] + s) == seq![view_json(v)] + view_json_seq(s),
{
    assert((seq![v] + s).drop_first() =~= s);
    assert((seq![v] + s)[0] == v);
}

/// Putting a pair in front models the pair in front.
pub proof fn lemma_view_json_members_cons(p: (Vec<u8>, JsonValue), s: Seq<(Vec<u8>, JsonValue)>)
    ensures
        view_json_members(seq![p] + s) == seq![(p.0@, view_json(p.1))] + view_json_members(s),
{
    assert((seq![p] + s).drop_first() =~= s);
    assert((seq![p] + s)[0] == p);
}

/// Putting a pair at the end models the pair at the end.
pub proof fn lemma_view_json_members_snoc(s: Seq<(Vec<u8>, JsonValue)>, p: (Vec<u8>, JsonValue))
    ensures
        view_json_members(s.push(p)) == view_json_members(s).push((p.0@, view_json(p.1))),
    decreases s.len(),
{
    if s.len() == 0 {
        assert(s.push(p) =~= seq![p] + Seq::<(Vec<u8>, JsonValue)>::empty());
        lemma_view_json_members_cons(p, Seq::<(Vec<u8>, JsonValue)>::empty());
        assert(view_json_members(s.push(p)) =~= view_json_members(s).push(
            (p.0@, view_json(p.1)),
        ));
    } else {
        assert(s.push(p).drop_first() =~= s.drop_first().push(p));
        lemma_view_json_members_snoc(s.drop_first(), p);
        assert(view_json_members(s.push(p)) =~= view_json_members(s).push(
            (p.0@, view_json(p.1)),
        ));
    }
}

/// Member-list views keep the length and model pairs pointwise.
pub proof fn lemma_view_json_members(s: Seq<(Vec<u8>, JsonValue)>)
    ensures
        view_json_members(s).len() == s.len(),
        forall|i: int|
            0 <= i < s.len() ==> view_json_members(s)[i] == (s[i].0@, view_json(s[i].1)),
    decreases s.len(),
{
    if s.len() > 0 {
        lemma_view_json_members(s.drop_first());
    }
}

impl View for JsonValue {
    type V = SpecJson;

    open spec fn view(&self) -> SpecJson {
        view_json(*self)
    }
}

/// The outcome of a parsing step at the specification level: a parsed
/// construct together with the position just past it, or a signal that the
/// buffer ends before the construct does, or a signal that the bytes cannot
/// be part of any well-formed construct.
pub enum SpecParsed<T> {
    /// The construct and the index of the first byte after it.
    Found(T, int),
    /// The buffer is a prefix of a longer well-formed construct.
    Incomplete,
    /// The bytes are malformed.
    Bad,
}

/// Why an executable parsing step stopped without producing a value.
#[derive(Clone, Copy, Debug, PartialEq, Eq, Structural)]
pub enum ParseStop {
    /// The buffer ends before the construct does.
    Incomplete,
    /// The bytes are malformed.
    Bad,
}

/// JSON insignificant whitespace: space, tab, line feed, carriage return.
pub open spec fn is_ws(c: u8) -> bool {
    c == 0x20 || c == 0x09 || c == 0x0a || c == 0x0d
}

/// An ASCII decimal digit.
pub open spec fn is_digit(c: u8) -> bool {
    DIGIT0 <= c <= DIGIT9
}

/// The first index at or after `i` holding a non-whitespace byte, or the
/// buffer length when only whitespace remains.
pub open spec fn spec_skip_ws(b: Seq<u8>, i: int) -> int
    decreases b.len() - i,
{
    if i < 0 || i >= b.len() {
        b.len() as int
    } else if is_ws(b[i]) {
        spec_skip_ws(b, i + 1)
    } else {
        i
    }
}

/// Whitespace skipping stays inside the buffer, skips only whitespace, and
/// stops at the first non-whitespace byte.
pub proof fn lemma_skip_ws(b: Seq<u8>, i: int)
    requires
        0 <= i <= b.len(),
    ensures
        i <= spec_skip_ws(b, i) <= b.len(),
        spec_skip_ws(b, i) < b.len() ==> !is_ws(b[spec_skip_ws(b, i)]),
        forall|k: int| i <= k < spec_skip_ws(b, i) ==> is_ws(b[k]),
    decreases b.len() - i,
{
    if i < b.len() && is_ws(b[i]) {
        lemma_skip_ws(b, i + 1);
    }
}

/// The byte denoted by a single-character string escape, if the escape is
/// one the grammar accepts.
pub open spec fn spec_escape_byte(c: u8) -> Option<u8> {
    if c == QUOTE {
        Some(QUOTE)
    } else if c == BACKSLASH {
        Some(BACKSLASH)
    } else if c == 0x2f {  // solidus
        Some(0x2f)
    } else if c == 0x62 {  // b: backspace
        Some(0x08)
    } else if c == 0x66 {  // f: form feed
        Some(0x0c)
    } else if c == 0x6e {  // n: line feed
        Some(0x0a)
    } else if c == 0x72 {  // r: carriage return
        Some(0x0d)
    } else if c == 0x74 {  // t: tab
        Some(0x09)
    } else {
        None
    }
}

/// The value of an ASCII hexadecimal digit, or 16 when the byte is not one.
pub open spec fn hex_val(c: u8) -> u32 {
    if DIGIT0 <= c <= DIGIT9 {
        (c - DIGIT0) as u32
    } else if 0x41 <= c <= 0x46 {  // A-F
        (c - 0x41 + 10) as u32
    } else if 0x61 <= c <= 0x66 {  // a-f
        (c - 0x61 + 10) as u32
    } else {
        16
    }
}

/// A run of `n` hexadecimal digits appended to `acc`, and the position just
/// past the run.
pub open spec fn spec_hex_run(b: Seq<u8>, i: int, n: nat, acc: u32) -> SpecParsed<u32>
    decreases n,
{
    if n == 0 {
        SpecParsed::Found(acc, i)
    } else if i < 0 || i >= b.len() {
        SpecParsed::Incomplete
    } else if hex_val(b[i]) == 16 {
        SpecParsed::Bad
    } else {
        spec_hex_run(b, i + 1, (n - 1) as nat, ((acc * 16 + hex_val(b[i])) as u32))
    }
}

/// Four hexadecimal digits at `i`: the code unit they denote.
pub open spec fn spec_hex4(b: Seq<u8>, i: int) -> SpecParsed<u32> {
    spec_hex_run(b, i, 4, 0)
}

/// A `\u` escape, starting just after the `u`: the UTF-8 bytes of the
/// scalar it denotes, and the position just past the escape.  A leading
/// surrogate must be followed by a second escape holding a trailing
/// surrogate; the pair denotes one scalar.  A lone surrogate is malformed.
pub open spec fn spec_parse_u_escape(b: Seq<u8>, i: int) -> SpecParsed<Seq<u8>> {
    match spec_hex4(b, i) {
        SpecParsed::Found(u, k) => {
            if 0xD800 <= u < 0xDC00 {
                if k >= b.len() {
                    SpecParsed::Incomplete
                } else if b[k] != BACKSLASH {
                    SpecParsed::Bad
                } else if k + 1 >= b.len() {
                    SpecParsed::Incomplete
                } else if b[k + 1] != 0x75 {  // u
                    SpecParsed::Bad
                } else {
                    match spec_hex4(b, k + 2) {
                        SpecParsed::Found(u2, k2) => if 0xDC00 <= u2 < 0xE000 {
                            SpecParsed::Found(
                                encode_scalar(
                                    ((0x10000 + (u - 0xD800) * 0x400 + (u2 - 0xDC00)) as u32),
                                ),
                                k2,
                            )
                        } else {
                            SpecParsed::Bad
                        },
                        SpecParsed::Incomplete => SpecParsed::Incomplete,
                        SpecParsed::Bad => SpecParsed::Bad,
                    }
                }
            } else if 0xDC00 <= u < 0xE000 {
                SpecParsed::Bad
            } else {
                SpecParsed::Found(encode_scalar(u), k)
            }
        },
        SpecParsed::Incomplete => SpecParsed::Incomplete,
        SpecParsed::Bad => SpecParsed::Bad,
    }
}

/// Sixteen to the power `n`.
pub open spec fn sixteen_pow(n: nat) -> int
    decreases n,
{
    if n == 0 {
        1
    } else {
        16 * sixteen_pow((n - 1) as nat)
    }
}

/// The value of a hexadecimal run stays under its digit capacity, so no
/// accumulation step truncates.
proof fn lemma_hex_run_value(b: Seq<u8>, i: int, n: nat, acc: u32)
    requires
        (acc as int + 1) * sixteen_pow(n) <= 0x1_0000_0000,
    ensures
        spec_hex_run(b, i, n, acc) matches SpecParsed::Found(u, e) ==> (u as int) < (acc as int
            + 1) * sixteen_pow(n),
    decreases n,
{
    if n > 0 && 0 <= i < b.len() && hex_val(b[i]) != 16 {
        let v = hex_val(b[i]);
        assert(v < 16);
        let acc2 = (acc as int) * 16 + v;
        assert(sixteen_pow((n - 1) as nat) >= 1) by {
            lemma_sixteen_pow_pos((n - 1) as nat);
        }
        assert((acc2 + 1) * sixteen_pow((n - 1) as nat) <= (acc as int + 1) * sixteen_pow(n))
            by (nonlinear_arith)
            requires
                acc2 == (acc as int) * 16 + v,
                0 <= v < 16,
                sixteen_pow(n) == 16 * sixteen_pow((n - 1) as nat),
                sixteen_pow((n - 1) as nat) >= 0,
        ;
        assert(acc2 + 1 <= (acc2 + 1) * sixteen_pow((n - 1) as nat)) by (nonlinear_arith)
            requires
                sixteen_pow((n - 1) as nat) >= 1,
                acc2 >= 0,
        ;
        assert(acc2 < 0x1_0000_0000);
        assert(((acc * 16 + hex_val(b[i])) as u32) as int == acc2);
        lemma_hex_run_value(b, i + 1, (n - 1) as nat, ((acc * 16 + hex_val(b[i])) as u32));
    }
}

/// Sixteen to any power is positive.
proof fn lemma_sixteen_pow_pos(n: nat)
    ensures
        sixteen_pow(n) >= 1,
    decreases n,
{
    if n > 0 {
        lemma_sixteen_pow_pos((n - 1) as nat);
    }
}

/// A matched hexadecimal run ends exactly `n` places past its start, inside
/// the buffer.
pub proof fn lemma_hex_run_bounds(b: Seq<u8>, i: int, n: nat, acc: u32)
    requires
        0 <= i <= b.len(),
        spec_hex_run(b, i, n, acc) matches SpecParsed::Found(u, e),
    ensures
        spec_hex_run(b, i, n, acc) matches SpecParsed::Found(u, e) ==> e == i + n && e <= b.len(),
    decreases n,
{
    if n > 0 && 0 <= i < b.len() && hex_val(b[i]) != 16 {
        lemma_hex_run_bounds(b, i + 1, (n - 1) as nat, ((acc * 16 + hex_val(b[i])) as u32));
    }
}

/// A hexadecimal run survives truncation at or past its end, and becomes
/// incomplete when truncated inside.
proof fn lemma_hex_run_prefix(b: Seq<u8>, j: int, i: int, n: nat, acc: u32, u: u32, e: int)
    requires
        0 <= i <= j <= b.len(),
        spec_hex_run(b, i, n, acc) == SpecParsed::Found(u, e),
    ensures
        e <= j ==> spec_hex_run(b.take(j), i, n, acc) == SpecParsed::Found(u, e),
        e > j ==> spec_hex_run(b.take(j), i, n, acc) == SpecParsed::<u32>::Incomplete,
    decreases n,
{
    lemma_hex_run_bounds(b, i, n, acc);
    if n > 0 && i < j {
        match spec_hex_run(b, i + 1, (n - 1) as nat, ((acc * 16 + hex_val(b[i])) as u32)) {
            SpecParsed::Found(u2, e2) => {
                lemma_hex_run_prefix(
                    b,
                    j,
                    i + 1,
                    (n - 1) as nat,
                    ((acc * 16 + hex_val(b[i])) as u32),
                    u2,
                    e2,
                );
            },
            SpecParsed::Incomplete => {
                assert(false);
            },
            SpecParsed::Bad => {
                assert(false);
            },
        }
    }
}

/// A parsed `\u` escape ends inside the buffer, after its start.
pub proof fn lemma_u_escape_bounds(b: Seq<u8>, i: int)
    requires
        0 <= i <= b.len(),
        spec_parse_u_escape(b, i) matches SpecParsed::Found(s, e),
    ensures
        spec_parse_u_escape(b, i) matches SpecParsed::Found(s, e) ==> i < e <= b.len(),
{
    match spec_hex4(b, i) {
        SpecParsed::Found(u, k) => {
            lemma_hex_run_bounds(b, i, 4, 0);
            if 0xD800 <= u < 0xDC00 && k + 1 < b.len() && b[k] == BACKSLASH && b[k + 1] == 0x75 {
                match spec_hex4(b, k + 2) {
                    SpecParsed::Found(u2, k2) => {
                        lemma_hex_run_bounds(b, k + 2, 4, 0);
                    },
                    SpecParsed::Incomplete => {},
                    SpecParsed::Bad => {},
                }
            }
        },
        SpecParsed::Incomplete => {},
        SpecParsed::Bad => {},
    }
}

/// A `\u` escape survives truncation at or past its end, and becomes
/// incomplete when truncated inside: every byte of a valid escape is a real
/// byte of the buffer.
pub proof fn lemma_u_escape_prefix(b: Seq<u8>, j: int, i: int, s: Seq<u8>, e: int)
    requires
        0 <= i <= j <= b.len(),
        spec_parse_u_escape(b, i) == SpecParsed::Found(s, e),
    ensures
        e <= j ==> spec_parse_u_escape(b.take(j), i) == SpecParsed::Found(s, e),
        e > j ==> spec_parse_u_escape(b.take(j), i) == SpecParsed::<Seq<u8>>::Incomplete,
{
    lemma_u_escape_bounds(b, i);
    match spec_hex4(b, i) {
        SpecParsed::Found(u, k) => {
            lemma_hex_run_bounds(b, i, 4, 0);
            lemma_hex_run_prefix(b, j, i, 4, 0, u, k);
            if 0xD800 <= u < 0xDC00 {
                // the full escape is a surrogate pair
                if k + 1 < b.len() && b[k] == BACKSLASH && b[k + 1] == 0x75 {
                    match spec_hex4(b, k + 2) {
                        SpecParsed::Found(u2, k2) => {
                            lemma_hex_run_bounds(b, k + 2, 4, 0);
                            if k + 2 <= j {
                                lemma_hex_run_prefix(b, j, k + 2, 4, 0, u2, k2);
                            }
                        },
                        SpecParsed::Incomplete => {
                            assert(false);
                        },
                        SpecParsed::Bad => {
                            assert(false);
                        },
                    }
                }
            }
        },
        SpecParsed::Incomplete => {
            assert(false);
        },
        SpecParsed::Bad => {
            assert(false);
        },
    }
}

/// The body of a string, starting just after the opening quote: the
/// unescaped bytes and the position just past the closing quote.
pub open spec fn spec_parse_string_body(b: Seq<u8>, i: int) -> SpecParsed<Seq<u8>>
    decreases b.len() - i,
{
    if i < 0 || i >= b.len() {
        SpecParsed::Incomplete
    } else if b[i] == QUOTE {
        SpecParsed::Found(Seq::empty(), i + 1)
    } else if b[i] == BACKSLASH {
        if i + 1 >= b.len() {
            SpecParsed::Incomplete
        } else if b[i + 1] == 0x75 {  // u
            match spec_parse_u_escape(b, i + 2) {
                SpecParsed::Found(s1, k) => if i + 1 < k <= b.len() {
                    match spec_parse_string_body(b, k) {
                        SpecParsed::Found(s2, e) => SpecParsed::Found(s1 + s2, e),
                        SpecParsed::Incomplete => SpecParsed::Incomplete,
                        SpecParsed::Bad => SpecParsed::Bad,
                    }
                } else {
                    SpecParsed::Bad
                },
                SpecParsed::Incomplete => SpecParsed::Incomplete,
                SpecParsed::Bad => SpecParsed::Bad,
            }
        } else {
            match spec_escape_byte(b[i + 1]) {
                Some(c) => match spec_parse_string_body(b, i + 2) {
                    SpecParsed::Found(s, j) => SpecParsed::Found(seq![c] + s, j),
                    SpecParsed::Incomplete => SpecParsed::Incomplete,
                    SpecParsed::Bad => SpecParsed::Bad,
                },
                None => SpecParsed::Bad,
            }
        }
    } else if b[i] < 0x20 {
        SpecParsed::Bad
    } else {
        match spec_parse_string_body(b, i + 1) {
            SpecParsed::Found(s, j) => SpecParsed::Found(seq![b[i]] + s, j),
            SpecParsed::Incomplete => SpecParsed::Incomplete,
            SpecParsed::Bad => SpecParsed::Bad,
        }
    }
}

/// The value of the digit run starting at `i` appended to `acc`, and the
/// index of the first byte past the run.
pub open spec fn spec_parse_digits(b: Seq<u8>, i: int, acc: int) -> (int, int)
    decreases b.len() - i,
{
    if i < 0 || i >= b.len() {
        (acc, b.len() as int)
    } else if is_digit(b[i]) {
        spec_parse_digits(b, i + 1, acc * 10 + (b[i] - DIGIT0))
    } else {
        (acc, i)
    }
}

/// A complete number spanning `start..end`: the 64-bit integer it denotes
/// when it is integral and in range, or its raw text otherwise.
pub open spec fn spec_number_value(b: Seq<u8>, start: int, end: int, integral: bool) -> SpecParsed<
    SpecJson,
> {
    if integral {
        let ds = if b[start] == MINUS {
            start + 1
        } else {
            start
        };
        let (v, j) = spec_parse_digits(b, ds, 0);
        let value = if b[start] == MINUS {
            -v
        } else {
            v
        };
        if -0x8000_0000_0000_0000 <= value <= 0x7fff_ffff_ffff_ffff {
            SpecParsed::Found(SpecJson::Int(value), end)
        } else {
            SpecParsed::Found(SpecJson::Num(b.subrange(start, end)), end)
        }
    } else {
        SpecParsed::Found(SpecJson::Num(b.subrange(start, end)), end)
    }
}

/// The exponent part of a number, with `m` on the `e` marker: an optional
/// sign, then at least one digit.
pub open spec fn spec_number_exp(b: Seq<u8>, start: int, m: int) -> SpecParsed<SpecJson> {
    if m + 1 >= b.len() {
        SpecParsed::Incomplete
    } else {
        let k = if b[m + 1] == PLUS || b[m + 1] == MINUS {
            m + 2
        } else {
            m + 1
        };
        if k >= b.len() {
            SpecParsed::Incomplete
        } else if !is_digit(b[k]) {
            SpecParsed::Bad
        } else {
            let (v, j) = spec_parse_digits(b, k, 0);
            spec_number_value(b, start, j, false)
        }
    }
}

/// An optional exponent after fraction digits ending at `j`.
pub open spec fn spec_number_exp_opt(b: Seq<u8>, start: int, j: int) -> SpecParsed<SpecJson> {
    if j >= b.len() {
        spec_number_value(b, start, j, false)
    } else if b[j] == 0x65 || b[j] == 0x45 {  // e | E
        spec_number_exp(b, start, j)
    } else {
        spec_number_value(b, start, j, false)
    }
}

/// The body of a number after its optional minus sign: integer digits
/// starting at `ds` (with no leading zero), then an optional fraction and
/// exponent.
pub open spec fn spec_number_tail(b: Seq<u8>, start: int, ds: int) -> SpecParsed<SpecJson> {
    if b[ds] == DIGIT0 && ds + 1 < b.len() && is_digit(b[ds + 1]) {
        SpecParsed::Bad
    } else {
        let (v, j) = spec_parse_digits(b, ds, 0);
        if j >= b.len() {
            spec_number_value(b, start, j, true)
        } else if b[j] == DOT {
            if j + 1 >= b.len() {
                SpecParsed::Incomplete
            } else if !is_digit(b[j + 1]) {
                SpecParsed::Bad
            } else {
                let (v2, j2) = spec_parse_digits(b, j + 1, 0);
                spec_number_exp_opt(b, start, j2)
            }
        } else if b[j] == 0x65 || b[j] == 0x45 {  // e | E
            spec_number_exp(b, start, j)
        } else {
            spec_number_value(b, start, j, true)
        }
    }
}

/// A number starting at `i`, which holds a minus sign or a digit.
pub open spec fn spec_parse_number(b: Seq<u8>, i: int) -> SpecParsed<SpecJson> {
    if i < 0 || i >= b.len() {
        SpecParsed::Incomplete
    } else if b[i] == MINUS {
        if i + 1 >= b.len() {
            SpecParsed::Incomplete
        } else if !is_digit(b[i + 1]) {
            SpecParsed::Bad
        } else {
            spec_number_tail(b, i, i + 1)
        }
    } else if is_digit(b[i]) {
        spec_number_tail(b, i, i)
    } else {
        SpecParsed::Bad
    }
}

/// Matches the literal bytes `lit` at position `i`.
pub open spec fn spec_match_lit(b: Seq<u8>, i: int, lit: Seq<u8>) -> SpecParsed<()>
    decreases lit.len(),
{
    if lit.len() == 0 {
        SpecParsed::Found((), i)
    } else if i < 0 || i >= b.len() {
        SpecParsed::Incomplete
    } else if b[i] != lit[0] {
        SpecParsed::Bad
    } else {
        spec_match_lit(b, i + 1, lit.drop_first())
    }
}

/// The bytes of the literal `true`.
pub open spec fn lit_true() -> Seq<u8> {
    seq![0x74u8, 0x72u8, 0x75u8, 0x65u8]
}

/// The bytes of the literal `false`.
pub open spec fn lit_false() -> Seq<u8> {
    seq![0x66u8, 0x61u8, 0x6cu8, 0x73u8, 0x65u8]
}

/// The bytes of the literal `null`.
pub open spec fn lit_null() -> Seq<u8> {
    seq![0x6eu8, 0x75u8, 0x6cu8, 0x6cu8]
}

/// A JSON value starting at position `i` (which must hold its first byte):
/// the value and the position just past it.
pub open spec fn spec_parse_value(b: Seq<u8>, i: int) -> SpecParsed<SpecJson>
    decreases b.len() - i, 0int,
{
    if i < 0 || i >= b.len() {
        SpecParsed::Incomplete
    } else if b[i] == LBRACE {
        let j = spec_skip_ws(b, i + 1);
        if j >= b.len() {
            SpecParsed::Incomplete
        } else if b[j] == RBRACE {
            SpecParsed::Found(SpecJson::Obj(Seq::empty()), j + 1)
        } else if b[j] == QUOTE && j > i {
            match spec_parse_members(b, j) {
                SpecParsed::Found(ms, k) => SpecParsed::Found(SpecJson::Obj(ms), k),
                SpecParsed::Incomplete => SpecParsed::Incomplete,
                SpecParsed::Bad => SpecParsed::Bad,
            }
        } else {
            SpecParsed::Bad
        }
    } else if b[i] == LBRACK {
        let j = spec_skip_ws(b, i + 1);
        if j >= b.len() {
            SpecParsed::Incomplete
        } else if b[j] == RBRACK {
            SpecParsed::Found(SpecJson::Arr(Seq::empty()), j + 1)
        } else if j > i {
            match spec_parse_items(b, j) {
                SpecParsed::Found(vs, k) => SpecParsed::Found(SpecJson::Arr(vs), k),
                SpecParsed::Incomplete => SpecParsed::Incomplete,
                SpecParsed::Bad => SpecParsed::Bad,
            }
        } else {
            SpecParsed::Bad
        }
    } else if b[i] == QUOTE {
        match spec_parse_string_body(b, i + 1) {
            SpecParsed::Found(s, j) => SpecParsed::Found(SpecJson::Str(s), j),
            SpecParsed::Incomplete => SpecParsed::Incomplete,
            SpecParsed::Bad => SpecParsed::Bad,
        }
    } else if b[i] == MINUS || is_digit(b[i]) {
        spec_parse_number(b, i)
    } else if b[i] == 0x74 {  // t
        match spec_match_lit(b, i, lit_true()) {
            SpecParsed::Found(u, j) => SpecParsed::Found(SpecJson::Bool(true), j),
            SpecParsed::Incomplete => SpecParsed::Incomplete,
            SpecParsed::Bad => SpecParsed::Bad,
        }
    } else if b[i] == 0x66 {  // f
        match spec_match_lit(b, i, lit_false()) {
            SpecParsed::Found(u, j) => SpecParsed::Found(SpecJson::Bool(false), j),
            SpecParsed::Incomplete => SpecParsed::Incomplete,
            SpecParsed::Bad => SpecParsed::Bad,
        }
    } else if b[i] == 0x6e {  // n
        match spec_match_lit(b, i, lit_null()) {
            SpecParsed::Found(u, j) => SpecParsed::Found(SpecJson::Null, j),
            SpecParsed::Incomplete => SpecParsed::Incomplete,
            SpecParsed::Bad => SpecParsed::Bad,
        }
    } else {
        SpecParsed::Bad
    }
}

/// One or more `"key": value` members starting at position `i` (which must
/// hold the opening quote of the first key), up to and including the
/// closing brace of the object.
pub open spec fn spec_parse_members(b: Seq<u8>, i: int) -> SpecParsed<Seq<(Seq<u8>, SpecJson)>>
    decreases b.len() - i, 1int,
{
    if i < 0 || i >= b.len() {
        SpecParsed::Incomplete
    } else if b[i] != QUOTE {
        SpecParsed::Bad
    } else {
        match spec_parse_string_body(b, i + 1) {
            SpecParsed::Found(key, i2) => {
                let j = spec_skip_ws(b, i2);
                if j >= b.len() {
                    SpecParsed::Incomplete
                } else if b[j] != COLON {
                    SpecParsed::Bad
                } else {
                    let j2 = spec_skip_ws(b, j + 1);
                    if j2 < i || j2 > b.len() {
                        SpecParsed::Bad
                    } else {
                        match spec_parse_value(b, j2) {
                            SpecParsed::Found(v, i3) => {
                                let j3 = spec_skip_ws(b, i3);
                                if j3 >= b.len() {
                                    SpecParsed::Incomplete
                                } else if b[j3] == RBRACE {
                                    SpecParsed::Found(seq![(key, v)], j3 + 1)
                                } else if b[j3] == COMMA {
                                    let j4 = spec_skip_ws(b, j3 + 1);
                                    if j4 <= i || j4 > b.len() {
                                        SpecParsed::Bad
                                    } else {
                                        match spec_parse_members(b, j4) {
                                            SpecParsed::Found(rest, k) => SpecParsed::Found(
                                                seq![(key, v)] + rest,
                                                k,
                                            ),
                                            SpecParsed::Incomplete => SpecParsed::Incomplete,
                                            SpecParsed::Bad => SpecParsed::Bad,
                                        }
                                    }
                                } else {
                                    SpecParsed::Bad
                                }
                            },
                            SpecParsed::Incomplete => SpecParsed::Incomplete,
                            SpecParsed::Bad => SpecParsed::Bad,
                        }
                    }
                }
            },
            SpecParsed::Incomplete => SpecParsed::Incomplete,
            SpecParsed::Bad => SpecParsed::Bad,
        }
    }
}

/// One or more array items starting at position `i` (which must hold the
/// first byte of the first item), up to and including the closing bracket.
pub open spec fn spec_parse_items(b: Seq<u8>, i: int) -> SpecParsed<Seq<SpecJson>>
    decreases b.len() - i, 1int,
{
    if i < 0 || i >= b.len() {
        SpecParsed::Incomplete
    } else {
        match spec_parse_value(b, i) {
            SpecParsed::Found(v, i2) => {
                let j = spec_skip_ws(b, i2);
                if j >= b.len() {
                    SpecParsed::Incomplete
                } else if b[j] == RBRACK {
                    SpecParsed::Found(seq![v], j + 1)
                } else if b[j] == COMMA {
                    let j2 = spec_skip_ws(b, j + 1);
                    if j2 <= i || j2 > b.len() {
                        SpecParsed::Bad
                    } else {
                        match spec_parse_items(b, j2) {
                            SpecParsed::Found(rest, k) => SpecParsed::Found(seq![v] + rest, k),
                            SpecParsed::Incomplete => SpecParsed::Incomplete,
                            SpecParsed::Bad => SpecParsed::Bad,
                        }
                    }
                } else {
                    SpecParsed::Bad
                }
            },
            SpecParsed::Incomplete => SpecParsed::Incomplete,
            SpecParsed::Bad => SpecParsed::Bad,
        }
    }
}

/// A parsed string body ends inside the buffer, after its opening position.
pub proof fn lemma_string_body_bounds(b: Seq<u8>, i: int)
    requires
        spec_parse_string_body(b, i) matches SpecParsed::Found(s, e),
    ensures
        spec_parse_string_body(b, i) matches SpecParsed::Found(s, e) ==> i < e <= b.len(),
    decreases b.len() - i,
{
    if 0 <= i < b.len() {
        if b[i] == BACKSLASH {
            if i + 1 < b.len() && b[i + 1] == 0x75 {
                match spec_parse_u_escape(b, i + 2) {
                    SpecParsed::Found(s1, k) => {
                        lemma_u_escape_bounds(b, i + 2);
                        if i + 1 < k <= b.len() {
                            if spec_parse_string_body(b, k) matches SpecParsed::Found(s2, e2) {
                                lemma_string_body_bounds(b, k);
                            }
                        }
                    },
                    SpecParsed::Incomplete => {},
                    SpecParsed::Bad => {},
                }
            } else if i + 1 < b.len() && spec_escape_byte(b[i + 1]) is Some {
                if spec_parse_string_body(b, i + 2) matches SpecParsed::Found(s2, e2) {
                    lemma_string_body_bounds(b, i + 2);
                }
            }
        } else if b[i] != QUOTE && b[i] >= 0x20 {
            if spec_parse_string_body(b, i + 1) matches SpecParsed::Found(s2, e2) {
                lemma_string_body_bounds(b, i + 1);
            }
        }
    }
}

/// A matched literal ends exactly its own length past its start, inside the
/// buffer.
pub proof fn lemma_match_lit_bounds(b: Seq<u8>, i: int, lit: Seq<u8>)
    requires
        0 <= i <= b.len(),
        spec_match_lit(b, i, lit) matches SpecParsed::Found(u, e),
    ensures
        spec_match_lit(b, i, lit) matches SpecParsed::Found(u, e) ==> e == i + lit.len() && e
            <= b.len(),
    decreases lit.len(),
{
    if lit.len() > 0 && 0 <= i < b.len() && b[i] == lit[0] {
        lemma_match_lit_bounds(b, i + 1, lit.drop_first());
    }
}

/// A parsed value ends inside the buffer, after its starting position.
pub proof fn lemma_parse_value_bounds(b: Seq<u8>, i: int)
    requires
        spec_parse_value(b, i) matches SpecParsed::Found(v, e),
    ensures
        spec_parse_value(b, i) matches SpecParsed::Found(v, e) ==> i < e <= b.len(),
    decreases b.len() - i, 0int,
{
    if 0 <= i < b.len() {
        if b[i] == LBRACE {
            let j = spec_skip_ws(b, i + 1);
            lemma_skip_ws(b, i + 1);
            if j < b.len() && b[j] != RBRACE && b[j] == QUOTE && j > i {
                if spec_parse_members(b, j) matches SpecParsed::Found(ms, k) {
                    lemma_parse_members_bounds(b, j);
                }
            }
        } else if b[i] == LBRACK {
            let j = spec_skip_ws(b, i + 1);
            lemma_skip_ws(b, i + 1);
            if j < b.len() && b[j] != RBRACK && j > i {
                if spec_parse_items(b, j) matches SpecParsed::Found(vs, k) {
                    lemma_parse_items_bounds(b, j);
                }
            }
        } else if b[i] == QUOTE {
            if spec_parse_string_body(b, i + 1) matches SpecParsed::Found(s, e) {
                lemma_string_body_bounds(b, i + 1);
            }
        } else if b[i] == MINUS || is_digit(b[i]) {
            if spec_parse_number(b, i) matches SpecParsed::Found(nv, ne) {
                lemma_parse_number_bounds(b, i);
            }
        } else if b[i] == 0x74 {
            lemma_match_lit_bounds(b, i, lit_true());
        } else if b[i] == 0x66 {
            lemma_match_lit_bounds(b, i, lit_false());
        } else if b[i] == 0x6e {
            lemma_match_lit_bounds(b, i, lit_null());
        }
    }
}

/// A parsed member list ends inside the buffer, after its starting position.
pub proof fn lemma_parse_members_bounds(b: Seq<u8>, i: int)
    requires
        spec_parse_members(b, i) matches SpecParsed::Found(ms, e),
    ensures
        spec_parse_members(b, i) matches SpecParsed::Found(ms, e) ==> i < e <= b.len(),
    decreases b.len() - i, 1int,
{
    if 0 <= i < b.len() && b[i] == QUOTE {
        match spec_parse_string_body(b, i + 1) {
            SpecParsed::Found(key, i2) => {
                lemma_string_body_bounds(b, i + 1);
                let j = spec_skip_ws(b, i2);
                lemma_skip_ws(b, i2);
                if j < b.len() && b[j] == COLON {
                    let j2 = spec_skip_ws(b, j + 1);
                    lemma_skip_ws(b, j + 1);
                    if i <= j2 <= b.len() {
                        match spec_parse_value(b, j2) {
                            SpecParsed::Found(v, i3) => {
                                lemma_parse_value_bounds(b, j2);
                                let j3 = spec_skip_ws(b, i3);
                                lemma_skip_ws(b, i3);
                                if j3 < b.len() && b[j3] == COMMA {
                                    let j4 = spec_skip_ws(b, j3 + 1);
                                    lemma_skip_ws(b, j3 + 1);
                                    if i < j4 <= b.len() {
                                        match spec_parse_members(b, j4) {
                                            SpecParsed::Found(rest, k) => {
                                                lemma_parse_members_bounds(b, j4);
                                            },
                                            _ => {},
                                        }
                                    }
                                }
                            },
                            _ => {},
                        }
                    }
                }
            },
            _ => {},
        }
    }
}

/// A parsed item list ends inside the buffer, after its starting position.
pub proof fn lemma_parse_items_bounds(b: Seq<u8>, i: int)
    requires
        spec_parse_items(b, i) matches SpecParsed::Found(vs, e),
    ensures
        spec_parse_items(b, i) matches SpecParsed::Found(vs, e) ==> i < e <= b.len(),
    decreases b.len() - i, 1int,
{
    if 0 <= i < b.len() {
        match spec_parse_value(b, i) {
            SpecParsed::Found(v, i2) => {
                lemma_parse_value_bounds(b, i);
                let j = spec_skip_ws(b, i2);
                lemma_skip_ws(b, i2);
                if j < b.len() && b[j] == COMMA {
                    let j2 = spec_skip_ws(b, j + 1);
                    lemma_skip_ws(b, j + 1);
                    if i < j2 <= b.len() {
                        match spec_parse_items(b, j2) {
                            SpecParsed::Found(rest, k) => {
                                lemma_parse_items_bounds(b, j2);
                            },
                            _ => {},
                        }
                    }
                }
            },
            _ => {},
        }
    }
}

/// Skipping whitespace in a truncated buffer stops where the full buffer
/// stops, or at the truncation point, whichever comes first.
pub proof fn lemma_skip_ws_prefix(b: Seq<u8>, j: int, i: int)
    requires
        0 <= i <= j <= b.len(),
    ensures
        spec_skip_ws(b.take(j), i) == if spec_skip_ws(b, i) <= j {
            spec_skip_ws(b, i)
        } else {
            j
        },
    decreases j - i,
{
    lemma_skip_ws(b, i);
    if i < j && is_ws(b[i]) {
        lemma_skip_ws_prefix(b, j, i + 1);
    }
}

/// A string body survives truncation at or past its end, and becomes
/// incomplete when truncated before it.
pub proof fn lemma_string_body_prefix(b: Seq<u8>, j: int, i: int, s: Seq<u8>, e: int)
    requires
        0 <= i <= j <= b.len(),
        spec_parse_string_body(b, i) == SpecParsed::Found(s, e),
    ensures
        e <= j ==> spec_parse_string_body(b.take(j), i) == SpecParsed::Found(s, e),
        e > j ==> spec_parse_string_body(b.take(j), i) == SpecParsed::<Seq<u8>>::Incomplete,
    decreases b.len() - i,
{
    lemma_string_body_bounds(b, i);
    if i == j {
    } else if b[i] == QUOTE {
    } else if b[i] == BACKSLASH {
        if i + 1 < b.len() && b[i + 1] == 0x75 {
            match spec_parse_u_escape(b, i + 2) {
                SpecParsed::Found(s1, k) => {
                    lemma_u_escape_bounds(b, i + 2);
                    match spec_parse_string_body(b, k) {
                        SpecParsed::Found(s2, e2) => {
                            lemma_string_body_bounds(b, k);
                            if i + 1 < j {
                                lemma_u_escape_prefix(b, j, i + 2, s1, k);
                                if k <= j {
                                    lemma_string_body_prefix(b, j, k, s2, e2);
                                }
                            }
                        },
                        SpecParsed::Incomplete => {
                            assert(false);
                        },
                        SpecParsed::Bad => {
                            assert(false);
                        },
                    }
                },
                SpecParsed::Incomplete => {
                    assert(false);
                },
                SpecParsed::Bad => {
                    assert(false);
                },
            }
        } else {
            match spec_parse_string_body(b, i + 2) {
                SpecParsed::Found(s2, e2) => {
                    lemma_string_body_bounds(b, i + 2);
                    if i + 1 < j {
                        lemma_string_body_prefix(b, j, i + 2, s2, e2);
                    }
                },
                SpecParsed::Incomplete => {
                    assert(false);
                },
                SpecParsed::Bad => {
                    assert(false);
                },
            }
        }
    } else {
        match spec_parse_string_body(b, i + 1) {
            SpecParsed::Found(s2, e2) => {
                lemma_string_body_prefix(b, j, i + 1, s2, e2);
            },
            SpecParsed::Incomplete => {
                assert(false);
            },
            SpecParsed::Bad => {
                assert(false);
            },
        }
    }
}

/// A matched literal survives truncation at or past its end, and becomes
/// incomplete when truncated before it.
pub proof fn lemma_match_lit_prefix(b: Seq<u8>, j: int, i: int, lit: Seq<u8>, e: int)
    requires
        0 <= i <= j <= b.len(),
        spec_match_lit(b, i, lit) == SpecParsed::Found((), e),
    ensures
        e <= j ==> spec_match_lit(b.take(j), i, lit) == SpecParsed::Found((), e),
        e > j ==> spec_match_lit(b.take(j), i, lit) == SpecParsed::<()>::Incomplete,
    decreases lit.len(),
{
    lemma_match_lit_bounds(b, i, lit);
    if lit.len() == 0 {
    } else if i < j {
        match spec_match_lit(b, i + 1, lit.drop_first()) {
            SpecParsed::Found(u, e2) => {
                lemma_match_lit_prefix(b, j, i + 1, lit.drop_first(), e2);
            },
            SpecParsed::Incomplete => {
                assert(false);
            },
            SpecParsed::Bad => {
                assert(false);
            },
        }
    }
}

/// A digit run survives truncation at or past its end; truncated inside, it
/// ends exactly at the truncation point.
pub proof fn lemma_parse_digits_prefix(b: Seq<u8>, j: int, i: int, acc: int)
    requires
        0 <= i <= j <= b.len(),
    ensures
        ({
            let r = spec_parse_digits(b, i, acc);
            let rp = spec_parse_digits(b.take(j), i, acc);
            (r.1 <= j ==> rp == r) && (r.1 > j ==> rp.1 == j)
        }),
    decreases j - i,
{
    lemma_parse_digits_bounds(b, i, acc);
    if i < b.len() && is_digit(b[i]) {
        lemma_parse_digits_bounds(b, i + 1, acc * 10 + (b[i] - DIGIT0));
    }
    if i < j && is_digit(b[i]) {
        lemma_parse_digits_prefix(b, j, i + 1, acc * 10 + (b[i] - DIGIT0));
    }
}

/// A parsed number ends inside the buffer, after its starting position and
/// after its integer digit run.
pub proof fn lemma_parse_number_bounds(b: Seq<u8>, i: int)
    requires
        spec_parse_number(b, i) matches SpecParsed::Found(v, e),
    ensures
        spec_parse_number(b, i) matches SpecParsed::Found(v, e) ==> i < e <= b.len() && e
            >= spec_parse_digits(b, if b[i] == MINUS { i + 1 } else { i }, 0).1,
{
    if 0 <= i < b.len() {
        let ds = if b[i] == MINUS {
            i + 1
        } else {
            i
        };
        if ds < b.len() && is_digit(b[ds]) {
            lemma_parse_digits_bounds(b, ds, 0);
            lemma_parse_digits_advances(b, ds, 0);
            let j = spec_parse_digits(b, ds, 0).1;
            if j < b.len() && b[j] == DOT && j + 1 < b.len() && is_digit(b[j + 1]) {
                lemma_parse_digits_bounds(b, j + 1, 0);
                lemma_parse_digits_advances(b, j + 1, 0);
                let j2 = spec_parse_digits(b, j + 1, 0).1;
                if j2 < b.len() && (b[j2] == 0x65 || b[j2] == 0x45) && j2 + 1 < b.len() {
                    let k = if b[j2 + 1] == PLUS || b[j2 + 1] == MINUS {
                        j2 + 2
                    } else {
                        j2 + 1
                    };
                    if k < b.len() && is_digit(b[k]) {
                        lemma_parse_digits_bounds(b, k, 0);
                        lemma_parse_digits_advances(b, k, 0);
                    }
                }
            } else if j < b.len() && (b[j] == 0x65 || b[j] == 0x45) && j + 1 < b.len() {
                let k = if b[j + 1] == PLUS || b[j + 1] == MINUS {
                    j + 2
                } else {
                    j + 1
                };
                if k < b.len() && is_digit(b[k]) {
                    lemma_parse_digits_bounds(b, k, 0);
                    lemma_parse_digits_advances(b, k, 0);
                }
            }
        }
    }
}

/// An exponent part survives truncation at or past its end; truncated
/// inside, it becomes incomplete or ends exactly at the truncation point.
proof fn lemma_number_exp_prefix(b: Seq<u8>, j: int, start: int, m: int, v: SpecJson, e: int)
    requires
        0 <= start <= m < j <= b.len(),
        spec_number_exp(b, start, m) == SpecParsed::Found(v, e),
    ensures
        e <= j ==> spec_number_exp(b.take(j), start, m) == SpecParsed::Found(v, e),
        e > j ==> match spec_number_exp(b.take(j), start, m) {
            SpecParsed::Found(v2, e2) => e2 == j,
            SpecParsed::Incomplete => true,
            SpecParsed::Bad => false,
        },
{
    // the marker is followed by an optional sign and at least one digit
    let k = if b[m + 1] == PLUS || b[m + 1] == MINUS {
        m + 2
    } else {
        m + 1
    };
    lemma_parse_digits_bounds(b, k, 0);
    lemma_parse_digits_advances(b, k, 0);
    let je = spec_parse_digits(b, k, 0).1;
    if m + 1 >= j {
    } else if k >= j {
    } else {
        lemma_parse_digits_prefix(b, j, k, 0);
        if je <= j {
            assert(b.take(j).subrange(start, je) =~= b.subrange(start, je));
        }
    }
}

/// A number survives truncation at or past its end; truncated inside, it
/// becomes incomplete or ends exactly at the truncation point (a digit run
/// is only ever terminated by the byte after it).
#[verifier::rlimit(100)]
#[verifier::spinoff_prover]
pub proof fn lemma_parse_number_prefix(b: Seq<u8>, j: int, i: int, v: SpecJson, e: int)
    requires
        0 <= i <= j <= b.len(),
        spec_parse_number(b, i) == SpecParsed::Found(v, e),
    ensures
        e <= j ==> spec_parse_number(b.take(j), i) == SpecParsed::Found(v, e),
        e > j ==> match spec_parse_number(b.take(j), i) {
            SpecParsed::Found(v2, e2) => e2 == j,
            SpecParsed::Incomplete => true,
            SpecParsed::Bad => false,
        },
{
    lemma_parse_number_bounds(b, i);
    if i == j {
        return ;
    }
    let ds = if b[i] == MINUS {
        i + 1
    } else {
        i
    };
    lemma_parse_digits_bounds(b, ds, 0);
    lemma_parse_digits_advances(b, ds, 0);
    let jd = spec_parse_digits(b, ds, 0).1;
    if b[i] == MINUS && i + 1 >= j {
        // the prefix ends right after the minus sign
        return ;
    }
    // ds < j, so the prefix keeps the sign and the first digit position
    lemma_parse_digits_prefix(b, j, ds, 0);
    lemma_parse_digits_bounds(b.take(j), ds, 0);
    if jd > j {
        // cut inside the integer digits: the truncated number is an
        // integral form ending at the cut
        assert(spec_parse_digits(b.take(j), ds, 0).1 == j);
        return ;
    }
    // the prefix keeps every byte before the cut
    assert(forall|x: int| 0 <= x < j ==> b.take(j)[x] == b[x]);
    // whatever shape the full number has, establish where each of its digit
    // runs ends, so that the end position pins the shape
    if jd < b.len() && b[jd] == DOT && jd + 1 < b.len() && is_digit(b[jd + 1]) {
        lemma_parse_digits_bounds(b, jd + 1, 0);
        lemma_parse_digits_advances(b, jd + 1, 0);
        let jf0 = spec_parse_digits(b, jd + 1, 0).1;
        if jf0 < b.len() && (b[jf0] == 0x65 || b[jf0] == 0x45) && jf0 + 1 < b.len() {
            let kk = if b[jf0 + 1] == PLUS || b[jf0 + 1] == MINUS {
                jf0 + 2
            } else {
                jf0 + 1
            };
            if kk < b.len() && is_digit(b[kk]) {
                lemma_parse_digits_bounds(b, kk, 0);
                lemma_parse_digits_advances(b, kk, 0);
            }
        }
    } else if jd < b.len() && (b[jd] == 0x65 || b[jd] == 0x45) && jd + 1 < b.len() {
        let kk = if b[jd + 1] == PLUS || b[jd + 1] == MINUS {
            jd + 2
        } else {
            jd + 1
        };
        if kk < b.len() && is_digit(b[kk]) {
            lemma_parse_digits_bounds(b, kk, 0);
            lemma_parse_digits_advances(b, kk, 0);
        }
    }
    // the integer run survives
    if e == jd {
        assert(b.take(j).subrange(i, e) =~= b.subrange(i, e));
        return ;
    }
    // a fraction or an exponent follows, so the dot or marker is a real byte
    assert(jd < b.len());
    if b[jd] == DOT {
        // the full parse has at least one digit after the dot
        lemma_parse_digits_bounds(b, jd + 1, 0);
        lemma_parse_digits_advances(b, jd + 1, 0);
        let jf = spec_parse_digits(b, jd + 1, 0).1;
        if jd >= j {
            // cut right before the dot: an integral form ending at the cut
            return ;
        }
        if jd + 1 >= j {
            // cut right after the dot: incomplete
            return ;
        }
        lemma_parse_digits_prefix(b, j, jd + 1, 0);
        lemma_parse_digits_bounds(b.take(j), jd + 1, 0);
        if jf > j {
            // cut inside the fraction digits: a fractional form ending at
            // the cut
            assert(spec_parse_digits(b.take(j), jd + 1, 0).1 == j);
            return ;
        }
        if e == jf {
            assert(b.take(j).subrange(i, e) =~= b.subrange(i, e));
            return ;
        }
        // an exponent follows the fraction
        if jf >= j {
            return ;
        }
        lemma_number_exp_prefix(b, j, i, jf, v, e);
    } else {
        // an exponent directly after the integer digits
        if jd >= j {
            return ;
        }
        lemma_number_exp_prefix(b, j, i, jd, v, e);
    }
}

/// A value survives truncation at or past its end.  Truncated inside, it
/// becomes incomplete — except that a value starting with a digit or a
/// minus sign may instead end exactly at the truncation point, because a
/// digit run is only ever terminated by the byte after it.
#[verifier::rlimit(100)]
#[verifier::spinoff_prover]
pub proof fn lemma_parse_value_prefix(b: Seq<u8>, j: int, i: int, v: SpecJson, e: int)
    requires
        0 <= i <= j <= b.len(),
        spec_parse_value(b, i) == SpecParsed::Found(v, e),
    ensures
        e <= j ==> spec_parse_value(b.take(j), i) == SpecParsed::Found(v, e),
        e > j ==> match spec_parse_value(b.take(j), i) {
            SpecParsed::Found(v2, e2) => e2 == j && (is_digit(b[i]) || b[i] == MINUS),
            SpecParsed::Incomplete => true,
            SpecParsed::Bad => false,
        },
    decreases b.len() - i, 2int,
{
    lemma_parse_value_bounds(b, i);
    if i == j {
    } else if b[i] == LBRACE {
        let jj = spec_skip_ws(b, i + 1);
        lemma_skip_ws(b, i + 1);
        lemma_skip_ws_prefix(b, j, i + 1);
        if b[jj] == RBRACE {
        } else {
            match spec_parse_members(b, jj) {
                SpecParsed::Found(ms, k) => {
                    lemma_parse_members_bounds(b, jj);
                    if jj < j {
                        lemma_parse_members_prefix(b, j, jj, ms, k);
                    }
                },
                SpecParsed::Incomplete => {
                    assert(false);
                },
                SpecParsed::Bad => {
                    assert(false);
                },
            }
        }
    } else if b[i] == LBRACK {
        let jj = spec_skip_ws(b, i + 1);
        lemma_skip_ws(b, i + 1);
        lemma_skip_ws_prefix(b, j, i + 1);
        if b[jj] == RBRACK {
        } else {
            match spec_parse_items(b, jj) {
                SpecParsed::Found(vs, k) => {
                    lemma_parse_items_bounds(b, jj);
                    if jj < j {
                        lemma_parse_items_prefix(b, j, jj, vs, k);
                    }
                },
                SpecParsed::Incomplete => {
                    assert(false);
                },
                SpecParsed::Bad => {
                    assert(false);
                },
            }
        }
    } else if b[i] == QUOTE {
        match spec_parse_string_body(b, i + 1) {
            SpecParsed::Found(s, e2) => {
                lemma_string_body_prefix(b, j, i + 1, s, e2);
            },
            SpecParsed::Incomplete => {
                assert(false);
            },
            SpecParsed::Bad => {
                assert(false);
            },
        }
    } else if b[i] == MINUS || is_digit(b[i]) {
        match spec_parse_number(b, i) {
            SpecParsed::Found(vv, e2) => {
                lemma_parse_number_prefix(b, j, i, vv, e2);
            },
            SpecParsed::Incomplete => {
                assert(false);
            },
            SpecParsed::Bad => {
                assert(false);
            },
        }
    } else if b[i] == 0x74 {
        match spec_match_lit(b, i, lit_true()) {
            SpecParsed::Found(u, e2) => {
                lemma_match_lit_prefix(b, j, i, lit_true(), e2);
            },
            SpecParsed::Incomplete => {
                assert(false);
            },
            SpecParsed::Bad => {
                assert(false);
            },
        }
    } else if b[i] == 0x66 {
        match spec_match_lit(b, i, lit_false()) {
            SpecParsed::Found(u, e2) => {
                lemma_match_lit_prefix(b, j, i, lit_false(), e2);
            },
            SpecParsed::Incomplete => {
                assert(false);
            },
            SpecParsed::Bad => {
                assert(false);
            },
        }
    } else if b[i] == 0x6e {
        match spec_match_lit(b, i, lit_null()) {
            SpecParsed::Found(u, e2) => {
                lemma_match_lit_prefix(b, j, i, lit_null(), e2);
            },
            SpecParsed::Incomplete => {
                assert(false);
            },
            SpecParsed::Bad => {
                assert(false);
            },
        }
    }
}

/// A member list survives truncation at or past its end, and becomes
/// incomplete when truncated inside: its closing brace is a real byte, so a
/// truncated member list can never look complete.
#[verifier::rlimit(100)]
#[verifier::spinoff_prover]
pub proof fn lemma_parse_members_prefix(
    b: Seq<u8>,
    j: int,
    i: int,
    ms: Seq<(Seq<u8>, SpecJson)>,
    e: int,
)
    requires
        0 <= i <= j <= b.len(),
        spec_parse_members(b, i) == SpecParsed::Found(ms, e),
    ensures
        e <= j ==> spec_parse_members(b.take(j), i) == SpecParsed::Found(ms, e),
        e > j ==> spec_parse_members(b.take(j), i) == SpecParsed::<
            Seq<(Seq<u8>, SpecJson)>,
        >::Incomplete,
    decreases b.len() - i, 3int,
{
    lemma_parse_members_bounds(b, i);
    match spec_parse_string_body(b, i + 1) {
        SpecParsed::Found(key, i2) => {
            lemma_string_body_bounds(b, i + 1);
            let jj = spec_skip_ws(b, i2);
            lemma_skip_ws(b, i2);
            let j2 = spec_skip_ws(b, jj + 1);
            lemma_skip_ws(b, jj + 1);
            match spec_parse_value(b, j2) {
                SpecParsed::Found(vv, i3) => {
                    lemma_parse_value_bounds(b, j2);
                    let j3 = spec_skip_ws(b, i3);
                    lemma_skip_ws(b, i3);
                    if b[j3] == RBRACE {
                        // e == j3 + 1; now compare against the truncation
                        if i == j {
                            return ;
                        }
                        lemma_string_body_prefix(b, j, i + 1, key, i2);
                        if i2 > j {
                            return ;
                        }
                        lemma_skip_ws_prefix(b, j, i2);
                        if jj >= j {
                            return ;
                        }
                        lemma_skip_ws_prefix(b, j, jj + 1);
                        if j2 >= j {
                            assert(spec_skip_ws(b.take(j), jj + 1) == j);
                            assert(spec_parse_value(b.take(j), j)
                                == SpecParsed::<SpecJson>::Incomplete);
                            assert(e > j);
                            assert(spec_parse_members(b.take(j), i) == SpecParsed::<
                                Seq<(Seq<u8>, SpecJson)>,
                            >::Incomplete);
                            return ;
                        }
                        lemma_parse_value_prefix(b, j, j2, vv, i3);
                        if i3 > j {
                            return ;
                        }
                        lemma_skip_ws_prefix(b, j, i3);
                    } else {
                        // b[j3] == COMMA, else the member list would not parse
                        let j4 = spec_skip_ws(b, j3 + 1);
                        lemma_skip_ws(b, j3 + 1);
                        match spec_parse_members(b, j4) {
                            SpecParsed::Found(rest, k) => {
                                lemma_parse_members_bounds(b, j4);
                                if i == j {
                                    return ;
                                }
                                lemma_string_body_prefix(b, j, i + 1, key, i2);
                                if i2 > j {
                                    return ;
                                }
                                lemma_skip_ws_prefix(b, j, i2);
                                if jj >= j {
                                    return ;
                                }
                                lemma_skip_ws_prefix(b, j, jj + 1);
                                if j2 >= j {
                                    return ;
                                }
                                lemma_parse_value_prefix(b, j, j2, vv, i3);
                                if i3 > j {
                                    return ;
                                }
                                lemma_skip_ws_prefix(b, j, i3);
                                if j3 >= j {
                                    return ;
                                }
                                lemma_skip_ws_prefix(b, j, j3 + 1);
                                if j4 >= j {
                                    return ;
                                }
                                lemma_parse_members_prefix(b, j, j4, rest, k);
                            },
                            SpecParsed::Incomplete => {
                                assert(false);
                            },
                            SpecParsed::Bad => {
                                assert(false);
                            },
                        }
                    }
                },
                SpecParsed::Incomplete => {
                    assert(false);
                },
                SpecParsed::Bad => {
                    assert(false);
                },
            }
        },
        SpecParsed::Incomplete => {
            assert(false);
        },
        SpecParsed::Bad => {
            assert(false);
        },
    }
}

/// An item list survives truncation at or past its end, and becomes
/// incomplete when truncated inside: its closing bracket is a real byte, so
/// a truncated item list can never look complete.
#[verifier::rlimit(100)]
#[verifier::spinoff_prover]
pub proof fn lemma_parse_items_prefix(b: Seq<u8>, j: int, i: int, vs: Seq<SpecJson>, e: int)
    requires
        0 <= i <= j <= b.len(),
        spec_parse_items(b, i) == SpecParsed::Found(vs, e),
    ensures
        e <= j ==> spec_parse_items(b.take(j), i) == SpecParsed::Found(vs, e),
        e > j ==> spec_parse_items(b.take(j), i) == SpecParsed::<Seq<SpecJson>>::Incomplete,
    decreases b.len() - i, 3int,
{
    lemma_parse_items_bounds(b, i);
    match spec_parse_value(b, i) {
        SpecParsed::Found(vv, i2) => {
            lemma_parse_value_bounds(b, i);
            let jj = spec_skip_ws(b, i2);
            lemma_skip_ws(b, i2);
            if b[jj] == RBRACK {
                // e == jj + 1; now compare against the truncation
                if i == j {
                    return ;
                }
                lemma_parse_value_prefix(b, j, i, vv, i2);
                if i2 > j {
                    return ;
                }
                lemma_skip_ws_prefix(b, j, i2);
            } else {
                // b[jj] == COMMA, else the item list would not parse
                let j2 = spec_skip_ws(b, jj + 1);
                lemma_skip_ws(b, jj + 1);
                match spec_parse_items(b, j2) {
                    SpecParsed::Found(rest, k) => {
                        lemma_parse_items_bounds(b, j2);
                        if i == j {
                            return ;
                        }
                        lemma_parse_value_prefix(b, j, i, vv, i2);
                        if i2 > j {
                            return ;
                        }
                        lemma_skip_ws_prefix(b, j, i2);
                        if jj >= j {
                            return ;
                        }
                        lemma_skip_ws_prefix(b, j, jj + 1);
                        if j2 >= j {
                            assert(spec_skip_ws(b.take(j), jj + 1) == j);
                            assert(spec_parse_items(b.take(j), j) == SpecParsed::<
                                Seq<SpecJson>,
                            >::Incomplete);
                            assert(e > j);
                            assert(spec_parse_items(b.take(j), i) == SpecParsed::<
                                Seq<SpecJson>,
                            >::Incomplete);
                            return ;
                        }
                        lemma_parse_items_prefix(b, j, j2, rest, k);
                    },
                    SpecParsed::Incomplete => {
                        assert(false);
                    },
                    SpecParsed::Bad => {
                        assert(false);
                    },
                }
            }
        },
        SpecParsed::Incomplete => {
            assert(false);
        },
        SpecParsed::Bad => {
            assert(false);
        },
    }
}

/// A whole document: one JSON value, optionally surrounded by whitespace,
/// spanning the entire buffer.  An empty (or whitespace-only) buffer is an
/// incomplete document, and bytes after the value other than whitespace are
/// malformed, so a successful parse always spans the whole buffer.
pub open spec fn spec_parse_document(b: Seq<u8>) -> SpecParsed<SpecJson> {
    let s = spec_skip_ws(b, 0);
    if s >= b.len() {
        SpecParsed::Incomplete
    } else {
        match spec_parse_value(b, s) {
            SpecParsed::Found(v, j) => {
                let t = spec_skip_ws(b, j);
                if t < b.len() {
                    SpecParsed::Bad
                } else {
                    SpecParsed::Found(v, b.len() as int)
                }
            },
            SpecParsed::Incomplete => SpecParsed::Incomplete,
            SpecParsed::Bad => SpecParsed::Bad,
        }
    }
}

/// A parsed value that is an object starts with an opening brace: every
/// other leading byte yields a different kind of value.
pub proof fn lemma_value_obj_starts_with_brace(
    b: Seq<u8>,
    i: int,
    ms: Seq<(Seq<u8>, SpecJson)>,
    e: int,
)
    requires
        spec_parse_value(b, i) == SpecParsed::Found(SpecJson::Obj(ms), e),
    ensures
        0 <= i < b.len() && b[i] == LBRACE,
{
}

/// Every proper prefix of a parseable document either needs more data or
/// already yields the same value: no way of cutting a body short can make
/// it parse to anything else.  A document whose value is a bare integer is
/// excluded: a digit run is only terminated by the byte after it, so a
/// prefix of it can parse as a shorter integer.
pub proof fn lemma_parse_document_prefix(b: Seq<u8>, j: int, v: SpecJson, n: int)
    requires
        spec_parse_document(b) == SpecParsed::Found(v, n),
        0 <= j < b.len(),
        !(is_digit(b[spec_skip_ws(b, 0)]) || b[spec_skip_ws(b, 0)] == MINUS),
    ensures
        spec_parse_document(b.take(j)) == SpecParsed::<SpecJson>::Incomplete
            || spec_parse_document(b.take(j)) == SpecParsed::Found(v, j),
{
    let s = spec_skip_ws(b, 0);
    lemma_skip_ws(b, 0);
    lemma_skip_ws_prefix(b, j, 0);
    if s < j {
        match spec_parse_value(b, s) {
            SpecParsed::Found(vv, e) => {
                lemma_parse_value_bounds(b, s);
                lemma_parse_value_prefix(b, j, s, vv, e);
                if e <= j {
                    lemma_skip_ws_prefix(b, j, e);
                }
            },
            SpecParsed::Incomplete => {
                assert(false);
            },
            SpecParsed::Bad => {
                assert(false);
            },
        }
    }
}

/// Compares two byte slices for equality of their contents.
pub fn bytes_eq(a: &[u8], d: &[u8]) -> (r: bool)
    ensures
        r == (a@ == d@),
{
    if a.len() != d.len() {
        assert(a@ != d@) by {
            assert(a@.len() != d@.len());
        }
        return false;
    }
    let n = a.len();
    let mut k: usize = 0;
    while k < n
        invariant
            n == a@.len() == d@.len(),
            0 <= k <= n,
            forall|t: int| 0 <= t < k ==> a@[t] == d@[t],
        decreases n - k,
    {
        if a[k] != d[k] {
            return false;
        }
        k += 1;
    }
    assert(a@ =~= d@);
    true
}

/// The first index at or after `i` holding a non-whitespace byte.
pub fn skip_ws(b: &[u8], i: usize) -> (r: usize)
    requires
        i <= b@.len(),
    ensures
        r as int == spec_skip_ws(b@, i as int),
        i <= r <= b@.len(),
{
    let mut j = i;
    while j < b.len() && (b[j] == 0x20 || b[j] == 0x09 || b[j] == 0x0a || b[j] == 0x0d)
        invariant
            i <= j <= b@.len(),
            spec_skip_ws(b@, i as int) == spec_skip_ws(b@, j as int),
        decreases b@.len() - j,
    {
        j += 1;
    }
    j
}

/// The byte denoted by a single-character string escape, if accepted.
fn escape_byte(c: u8) -> (r: Option<u8>)
    ensures
        r == spec_escape_byte(c),
{
    if c == QUOTE {
        Some(QUOTE)
    } else if c == BACKSLASH {
        Some(BACKSLASH)
    } else if c == 0x2f {
        Some(0x2f)
    } else if c == 0x62 {
        Some(0x08)
    } else if c == 0x66 {
        Some(0x0c)
    } else if c == 0x6e {
        Some(0x0a)
    } else if c == 0x72 {
        Some(0x0d)
    } else if c == 0x74 {
        Some(0x09)
    } else {
        None
    }
}

/// Matches the literal bytes `lit` at position `i`.
fn match_lit<const N: usize>(b: &[u8], i: usize, lit: &[u8; N]) -> (r: Result<usize, ParseStop>)
    requires
        i <= b@.len(),
    ensures
        match spec_match_lit(b@, i as int, lit@) {
            SpecParsed::Found(u, j) => match r {
                Ok(jj) => jj as int == j && j == i + N && i + N <= b@.len(),
                Err(e) => false,
            },
            SpecParsed::Incomplete => r == Err::<usize, ParseStop>(ParseStop::Incomplete),
            SpecParsed::Bad => r == Err::<usize, ParseStop>(ParseStop::Bad),
        },
{
    let mut k: usize = 0;
    assert(lit@.skip(0) =~= lit@);
    while k < N
        invariant
            0 <= k <= N,
            i <= b@.len(),
            i + k <= b@.len(),
            lit@.len() == N,
            spec_match_lit(b@, i as int, lit@) == spec_match_lit(
                b@,
                i + k as int,
                lit@.skip(k as int),
            ),
        decreases N - k,
    {
        if b.len() - i <= k {
            assert(lit@.skip(k as int).len() > 0);
            return Err(ParseStop::Incomplete);
        }
        if b[i + k] != lit[k] {
            assert(lit@.skip(k as int)[0] == lit@[k as int]);
            return Err(ParseStop::Bad);
        }
        assert(lit@.skip(k as int)[0] == lit@[k as int]);
        assert(lit@.skip(k as int).drop_first() =~= lit@.skip(k as int + 1));
        k += 1;
    }
    assert(lit@.skip(N as int).len() == 0);
    let blen = b.len();
    assert(i + N <= blen);
    Ok(i + N)
}

/// A digit run ends inside the buffer, at or after its start, and its value
/// is no smaller than the accumulator it started from.
proof fn lemma_parse_digits_bounds(b: Seq<u8>, i: int, acc: int)
    requires
        0 <= i <= b.len(),
    ensures
        i <= spec_parse_digits(b, i, acc).1 <= b.len(),
        acc >= 0 ==> spec_parse_digits(b, i, acc).0 >= acc,
    decreases b.len() - i,
{
    if i < b.len() && is_digit(b[i]) {
        lemma_parse_digits_bounds(b, i + 1, acc * 10 + (b[i] - DIGIT0));
    }
}

/// The first index at or past `i` that does not hold a digit: where the
/// digit run starting at `i` ends.
fn scan_digits(b: &[u8], i: usize) -> (r: usize)
    requires
        i <= b@.len(),
    ensures
        r as int == spec_parse_digits(b@, i as int, 0).1,
        i <= r <= b@.len(),
{
    let ghost mut gacc: int = 0;
    let mut t = i;
    while t < b.len() && b[t] >= DIGIT0 && b[t] <= DIGIT9
        invariant
            i <= t <= b@.len(),
            spec_parse_digits(b@, i as int, 0) == spec_parse_digits(b@, t as int, gacc),
        decreases b@.len() - t,
    {
        proof {
            gacc = gacc * 10 + (b@[t as int] - DIGIT0);
        }
        t += 1;
    }
    t
}

/// Copies the byte range `from..to` out of the buffer.
fn copy_range(b: &[u8], from: usize, to: usize) -> (r: Vec<u8>)
    requires
        from <= to <= b@.len(),
    ensures
        r@ == b@.subrange(from as int, to as int),
{
    let mut out: Vec<u8> = Vec::new();
    assert(out@ =~= b@.subrange(from as int, from as int));
    let mut t = from;
    while t < to
        invariant
            from <= t <= to <= b@.len(),
            out@ == b@.subrange(from as int, t as int),
        decreases to - t,
    {
        out.push(b[t]);
        proof {
            assert(b@.subrange(from as int, t + 1 as int) =~= b@.subrange(
                from as int,
                t as int,
            ).push(b@[t as int]));
        }
        t += 1;
    }
    out
}

/// The value of the digit run `ds..jd`, or nothing when it exceeds the
/// unsigned 64-bit range (and therefore the signed one as well).
fn digits_value(b: &[u8], ds: usize, jd: usize) -> (r: Option<u64>)
    requires
        ds <= jd <= b@.len(),
        jd as int == spec_parse_digits(b@, ds as int, 0).1,
    ensures
        ({
            let v = spec_parse_digits(b@, ds as int, 0).0;
            match r {
                Some(u) => u as int == v,
                None => v > u64::MAX,
            }
        }),
{
    let mut u: u64 = 0;
    let mut big = false;
    let ghost mut gacc: int = 0;
    let mut t = ds;
    while t < jd
        invariant
            ds <= t <= jd <= b@.len(),
            jd as int == spec_parse_digits(b@, ds as int, 0).1,
            spec_parse_digits(b@, ds as int, 0) == spec_parse_digits(b@, t as int, gacc),
            !big ==> u as int == gacc,
            big ==> gacc > u64::MAX,
            gacc >= 0,
        decreases jd - t,
    {
        assert(is_digit(b@[t as int])) by {
            if !is_digit(b@[t as int]) {
                assert(spec_parse_digits(b@, t as int, gacc).1 == t as int);
            }
        }
        let d = b[t] - DIGIT0;
        if !big {
            if u > (u64::MAX - d as u64) / 10 {
                proof {
                    let q = (u64::MAX - d) as int / 10;
                    assert(10 * q + 9 >= u64::MAX - d) by (nonlinear_arith)
                        requires
                            q == (u64::MAX - d) as int / 10,
                            0 <= d <= 9,
                    ;
                    assert(10 * (u as int) >= 10 * (q + 1)) by (nonlinear_arith)
                        requires
                            u as int >= q + 1,
                    ;
                }
                big = true;
            } else {
                proof {
                    let q = (u64::MAX - d) as int / 10;
                    assert(10 * q <= u64::MAX - d) by (nonlinear_arith)
                        requires
                            q == (u64::MAX - d) as int / 10,
                            0 <= d <= 9,
                    ;
                    assert(10 * (u as int) <= 10 * q) by (nonlinear_arith)
                        requires
                            u as int <= q,
                    ;
                }
                u = u * 10 + d as u64;
            }
        } else {
            proof {
                assert(gacc * 10 + d > u64::MAX) by (nonlinear_arith)
                    requires
                        gacc > u64::MAX,
                        d >= 0,
                ;
            }
        }
        proof {
            gacc = gacc * 10 + (b@[t as int] - DIGIT0);
        }
        t += 1;
    }
    proof {
        if t < b@.len() && is_digit(b@[t as int]) {
            lemma_parse_digits_bounds(b@, t as int + 1, gacc * 10 + (b@[t as int] - DIGIT0));
        }
    }
    if big {
        None
    } else {
        Some(u)
    }
}

/// The exponent part of a number, with `m` on the `e` marker.
fn exp_tail(b: &[u8], start: usize, m: usize) -> (r: Result<(JsonValue, usize), ParseStop>)
    requires
        start <= m < b@.len(),
    ensures
        match spec_number_exp(b@, start as int, m as int) {
            SpecParsed::Found(sv, e) => match r {
                Ok(p) => view_json(p.0) == sv && p.1 as int == e && m < p.1 <= b@.len(),
                Err(x) => false,
            },
            SpecParsed::Incomplete => r == Err::<(JsonValue, usize), ParseStop>(
                ParseStop::Incomplete,
            ),
            SpecParsed::Bad => r == Err::<(JsonValue, usize), ParseStop>(ParseStop::Bad),
        },
{
    let n = b.len();
    if n - m <= 1 {
        return Err(ParseStop::Incomplete);
    }
    let k = if b[m + 1] == PLUS || b[m + 1] == MINUS {
        m + 2
    } else {
        m + 1
    };
    if k >= n {
        return Err(ParseStop::Incomplete);
    }
    if b[k] < DIGIT0 || b[k] > DIGIT9 {
        return Err(ParseStop::Bad);
    }
    let je = scan_digits(b, k);
    proof {
        lemma_parse_digits_advances(b@, k as int, 0);
    }
    let text = copy_range(b, start, je);
    Ok((JsonValue::Num(text), je))
}

/// A number starting at `i`, which must hold a minus sign or a digit.
fn parse_number(b: &[u8], i: usize) -> (r: Result<(JsonValue, usize), ParseStop>)
    requires
        i <= b@.len(),
    ensures
        match spec_parse_number(b@, i as int) {
            SpecParsed::Found(sv, e) => match r {
                Ok(p) => view_json(p.0) == sv && p.1 as int == e && i < p.1 <= b@.len(),
                Err(x) => false,
            },
            SpecParsed::Incomplete => r == Err::<(JsonValue, usize), ParseStop>(
                ParseStop::Incomplete,
            ),
            SpecParsed::Bad => r == Err::<(JsonValue, usize), ParseStop>(ParseStop::Bad),
        },
{
    if i >= b.len() {
        return Err(ParseStop::Incomplete);
    }
    let neg = b[i] == MINUS;
    let ds = if neg {
        if i + 1 >= b.len() {
            return Err(ParseStop::Incomplete);
        }
        if b[i + 1] < DIGIT0 || b[i + 1] > DIGIT9 {
            return Err(ParseStop::Bad);
        }
        i + 1
    } else {
        if b[i] < DIGIT0 || b[i] > DIGIT9 {
            return Err(ParseStop::Bad);
        }
        i
    };
    if b[ds] == DIGIT0 && ds + 1 < b.len() && b[ds + 1] >= DIGIT0 && b[ds + 1] <= DIGIT9 {
        return Err(ParseStop::Bad);
    }
    let jd = scan_digits(b, ds);
    proof {
        lemma_parse_digits_advances(b@, ds as int, 0);
    }
    if jd < b.len() && b[jd] == DOT {
        if jd + 1 >= b.len() {
            return Err(ParseStop::Incomplete);
        }
        if b[jd + 1] < DIGIT0 || b[jd + 1] > DIGIT9 {
            return Err(ParseStop::Bad);
        }
        let jf = scan_digits(b, jd + 1);
        proof {
            lemma_parse_digits_advances(b@, jd as int + 1, 0);
        }
        if jf < b.len() && (b[jf] == 0x65 || b[jf] == 0x45) {
            return exp_tail(b, i, jf);
        }
        let text = copy_range(b, i, jf);
        return Ok((JsonValue::Num(text), jf));
    }
    if jd < b.len() && (b[jd] == 0x65 || b[jd] == 0x45) {
        return exp_tail(b, i, jd);
    }
    // an integral form ending at jd
    proof {
        lemma_parse_digits_bounds(b@, ds as int, 0);
    }
    match digits_value(b, ds, jd) {
        Some(u) => {
            if neg {
                if u <= 0x8000_0000_0000_0000u64 {
                    let x: i64 = if u == 0x8000_0000_0000_0000u64 {
                        i64::MIN
                    } else {
                        -(u as i64)
                    };
                    Ok((JsonValue::Int(x), jd))
                } else {
                    let text = copy_range(b, i, jd);
                    Ok((JsonValue::Num(text), jd))
                }
            } else {
                if u <= 0x7fff_ffff_ffff_ffffu64 {
                    Ok((JsonValue::Int(u as i64), jd))
                } else {
                    let text = copy_range(b, i, jd);
                    Ok((JsonValue::Num(text), jd))
                }
            }
        },
        None => {
            let text = copy_range(b, i, jd);
            Ok((JsonValue::Num(text), jd))
        },
    }
}

/// A digit run starting on a digit consumes at least that digit.
proof fn lemma_parse_digits_advances(b: Seq<u8>, i: int, acc: int)
    requires
        0 <= i < b.len(),
        is_digit(b[i]),
    ensures
        spec_parse_digits(b, i, acc).1 > i,
{
    lemma_parse_digits_bounds(b, i + 1, acc * 10 + (b[i] - DIGIT0));
}

/// The value of an ASCII hexadecimal digit, or 16 when the byte is not one.
fn hex_val_exec(c: u8) -> (r: u32)
    ensures
        r == hex_val(c),
{
    if DIGIT0 <= c && c <= DIGIT9 {
        (c - DIGIT0) as u32
    } else if 0x41 <= c && c <= 0x46 {
        (c - 0x41 + 10) as u32
    } else if 0x61 <= c && c <= 0x66 {
        (c - 0x61 + 10) as u32
    } else {
        16
    }
}

/// Four hexadecimal digits at `i`: the code unit they denote.
fn parse_hex4(b: &[u8], i: usize) -> (r: Result<(u32, usize), ParseStop>)
    requires
        i <= b@.len(),
    ensures
        match spec_hex4(b@, i as int) {
            SpecParsed::Found(u, e) => u < 0x10000 && match r {
                Ok(p) => p.0 == u && p.1 as int == e && i < p.1 <= b@.len(),
                Err(x) => false,
            },
            SpecParsed::Incomplete => r == Err::<(u32, usize), ParseStop>(ParseStop::Incomplete),
            SpecParsed::Bad => r == Err::<(u32, usize), ParseStop>(ParseStop::Bad),
        },
{
    proof {
        assert(sixteen_pow(4) == 0x10000) by {
            reveal_with_fuel(sixteen_pow, 5);
        }
        lemma_hex_run_value(b@, i as int, 4, 0);
    }
    let n = b.len();
    let mut acc: u32 = 0;
    let mut c: usize = 0;
    while c < 4
        invariant
            0 <= c <= 4,
            i + c <= n,
            n == b@.len(),
            c <= 1 ==> acc < 0x10,
            c == 2 ==> acc < 0x100,
            c == 3 ==> acc < 0x1000,
            c == 4 ==> acc < 0x10000,
            c == 0 ==> acc == 0,
            spec_hex4(b@, i as int) == spec_hex_run(b@, i + c as int, (4 - c) as nat, acc),
        decreases 4 - c,
    {
        if n - i <= c {
            return Err(ParseStop::Incomplete);
        }
        let v = hex_val_exec(b[i + c]);
        if v == 16 {
            return Err(ParseStop::Bad);
        }
        acc = acc * 16 + v;
        c += 1;
    }
    proof {
        lemma_hex_run_bounds(b@, i as int, 4, 0);
    }
    Ok((acc, i + 4))
}

/// The UTF-8 encoding of a Unicode scalar value.
fn encode_scalar_vec(u: u32) -> (r: Vec<u8>)
    requires
        u <= 0x10FFFF,
        !(0xD800 <= u <= 0xDFFF),
    ensures
        r@ == encode_scalar(u),
{
    let mut out: Vec<u8> = Vec::new();
    if u <= 0x7F {
        out.push((u & 0x7F) as u8);
        assert(out@ =~= encode_scalar(u));
    } else if u <= 0x7FF {
        out.push(0xC0 | ((u >> 6) & 0x1F) as u8);
        out.push(0x80 | (u & 0x3F) as u8);
        assert(out@ =~= encode_scalar(u));
    } else if u <= 0xFFFF {
        out.push(0xE0 | ((u >> 12) & 0x0F) as u8);
        out.push(0x80 | ((u >> 6) & 0x3F) as u8);
        out.push(0x80 | (u & 0x3F) as u8);
        assert(out@ =~= encode_scalar(u));
    } else {
        out.push(0xF0 | ((u >> 18) & 0x7) as u8);
        out.push(0x80 | ((u >> 12) & 0x3F) as u8);
        out.push(0x80 | ((u >> 6) & 0x3F) as u8);
        out.push(0x80 | (u & 0x3F) as u8);
        assert(out@ =~= encode_scalar(u));
    }
    out
}

/// A `\u` escape, starting just after the `u`: the UTF-8 bytes of the
/// scalar it denotes and the position just past the escape.
fn parse_u_escape(b: &[u8], i: usize) -> (r: Result<(Vec<u8>, usize), ParseStop>)
    requires
        i <= b@.len(),
    ensures
        match spec_parse_u_escape(b@, i as int) {
            SpecParsed::Found(s, e) => match r {
                Ok(p) => p.0@ == s && p.1 as int == e && i < p.1 <= b@.len(),
                Err(x) => false,
            },
            SpecParsed::Incomplete => r == Err::<(Vec<u8>, usize), ParseStop>(
                ParseStop::Incomplete,
            ),
            SpecParsed::Bad => r == Err::<(Vec<u8>, usize), ParseStop>(ParseStop::Bad),
        },
{
    let (u, k) = match parse_hex4(b, i) {
        Ok(p) => p,
        Err(stop) => { return Err(stop) },
    };
    if 0xD800 <= u && u < 0xDC00 {
        let n = b.len();
        if k >= n {
            return Err(ParseStop::Incomplete);
        }
        if b[k] != BACKSLASH {
            return Err(ParseStop::Bad);
        }
        if n - k <= 1 {
            return Err(ParseStop::Incomplete);
        }
        if b[k + 1] != 0x75 {
            return Err(ParseStop::Bad);
        }
        match parse_hex4(b, k + 2) {
            Ok((u2, k2)) => {
                if 0xDC00 <= u2 && u2 < 0xE000 {
                    let scalar = 0x10000 + (u - 0xD800) * 0x400 + (u2 - 0xDC00);
                    Ok((encode_scalar_vec(scalar), k2))
                } else {
                    Err(ParseStop::Bad)
                }
            },
            Err(stop) => Err(stop),
        }
    } else if 0xDC00 <= u && u < 0xE000 {
        Err(ParseStop::Bad)
    } else {
        proof {
            lemma_hex_run_bounds(b@, i as int, 4, 0);
        }
        assert(u < 0x10000);
        Ok((encode_scalar_vec(u), k))
    }
}

/// The body of a string, starting just after the opening quote.
pub fn parse_string_body(b: &[u8], i: usize) -> (r: Result<(Vec<u8>, usize), ParseStop>)
    requires
        i <= b@.len(),
    ensures
        match spec_parse_string_body(b@, i as int) {
            SpecParsed::Found(s, j) => match r {
                Ok(p) => p.0@ == s && p.1 as int == j && i < p.1 <= b@.len(),
                Err(e) => false,
            },
            SpecParsed::Incomplete => r == Err::<(Vec<u8>, usize), ParseStop>(
                ParseStop::Incomplete,
            ),
            SpecParsed::Bad => r == Err::<(Vec<u8>, usize), ParseStop>(ParseStop::Bad),
        },
    decreases b@.len() - i,
{
    if i >= b.len() {
        return Err(ParseStop::Incomplete);
    }
    let c = b[i];
    if c == QUOTE {
        let v: Vec<u8> = Vec::new();
        assert(v@ =~= Seq::<u8>::empty());
        return Ok((v, i + 1));
    }
    if c == BACKSLASH {
        if b.len() - i <= 1 {
            return Err(ParseStop::Incomplete);
        }
        if b[i + 1] == 0x75 {
            return match parse_u_escape(b, i + 2) {
                Ok((mut s1, k)) => match parse_string_body(b, k) {
                    Ok((mut s2, j2)) => {
                        let ghost gs1 = s1@;
                        let ghost gs2 = s2@;
                        s1.append(&mut s2);
                        assert(s1@ =~= gs1 + gs2);
                        Ok((s1, j2))
                    },
                    Err(stop) => Err(stop),
                },
                Err(stop) => Err(stop),
            };
        }
        match escape_byte(b[i + 1]) {
            Some(m) => match parse_string_body(b, i + 2) {
                Ok((mut s, j)) => {
                    let ghost prior = s@;
                    s.insert(0, m);
                    assert(s@ =~= seq![m] + prior);
                    Ok((s, j))
                },
                Err(stop) => Err(stop),
            },
            None => Err(ParseStop::Bad),
        }
    } else if c < 0x20 {
        Err(ParseStop::Bad)
    } else {
        match parse_string_body(b, i + 1) {
            Ok((mut s, j)) => {
                let ghost prior = s@;
                s.insert(0, c);
                assert(s@ =~= seq![c] + prior);
                Ok((s, j))
            },
            Err(stop) => Err(stop),
        }
    }
}

/// A JSON value starting at position `i`, which must hold its first byte.
pub fn parse_value(b: &[u8], i: usize) -> (r: Result<(JsonValue, usize), ParseStop>)
    requires
        i <= b@.len(),
    ensures
        match spec_parse_value(b@, i as int) {
            SpecParsed::Found(sv, j) => match r {
                Ok(p) => view_json(p.0) == sv && p.1 as int == j && i < p.1 <= b@.len(),
                Err(e) => false,
            },
            SpecParsed::Incomplete => r == Err::<(JsonValue, usize), ParseStop>(
                ParseStop::Incomplete,
            ),
            SpecParsed::Bad => r == Err::<(JsonValue, usize), ParseStop>(ParseStop::Bad),
        },
    decreases b@.len() - i, 0int,
{
    if i >= b.len() {
        return Err(ParseStop::Incomplete);
    }
    let c = b[i];
    if c == LBRACE {
        let j = skip_ws(b, i + 1);
        if j >= b.len() {
            return Err(ParseStop::Incomplete);
        }
        if b[j] == RBRACE {
            let members: Vec<(Vec<u8>, JsonValue)> = Vec::new();
            assert(view_json_members(members@) =~= Seq::<(Seq<u8>, SpecJson)>::empty());
            return Ok((JsonValue::Obj(members), j + 1));
        }
        if b[j] == QUOTE {
            match parse_members(b, j) {
                Ok((ms, k)) => Ok((JsonValue::Obj(ms), k)),
                Err(stop) => Err(stop),
            }
        } else {
            Err(ParseStop::Bad)
        }
    } else if c == LBRACK {
        let j = skip_ws(b, i + 1);
        if j >= b.len() {
            return Err(ParseStop::Incomplete);
        }
        if b[j] == RBRACK {
            let items: Vec<JsonValue> = Vec::new();
            assert(view_json_seq(items@) =~= Seq::<SpecJson>::empty());
            return Ok((JsonValue::Arr(items), j + 1));
        }
        match parse_items(b, j) {
            Ok((vs, k)) => Ok((JsonValue::Arr(vs), k)),
            Err(stop) => Err(stop),
        }
    } else if c == QUOTE {
        match parse_string_body(b, i + 1) {
            Ok((s, j)) => Ok((JsonValue::Str(s), j)),
            Err(stop) => Err(stop),
        }
    } else if c == MINUS || (c >= DIGIT0 && c <= DIGIT9) {
        parse_number(b, i)
    } else if c == 0x74 {
        let lit: [u8; 4] = [0x74, 0x72, 0x75, 0x65];
        assert(lit@ =~= lit_true());
        match match_lit(b, i, &lit) {
            Ok(j) => Ok((JsonValue::Bool(true), j)),
            Err(stop) => Err(stop),
        }
    } else if c == 0x66 {
        let lit: [u8; 5] = [0x66, 0x61, 0x6c, 0x73, 0x65];
        assert(lit@ =~= lit_false());
        match match_lit(b, i, &lit) {
            Ok(j) => Ok((JsonValue::Bool(false), j)),
            Err(stop) => Err(stop),
        }
    } else if c == 0x6e {
        let lit: [u8; 4] = [0x6e, 0x75, 0x6c, 0x6c];
        assert(lit@ =~= lit_null());
        match match_lit(b, i, &lit) {
            Ok(j) => Ok((JsonValue::Null, j)),
            Err(stop) => Err(stop),
        }
    } else {
        Err(ParseStop::Bad)
    }
}

/// One or more `"key": value` members, starting on the opening quote of the
/// first key, up to and including the closing brace.
pub fn parse_members(b: &[u8], i: usize) -> (r: Result<
    (Vec<(Vec<u8>, JsonValue)>, usize),
    ParseStop,
>)
    requires
        i <= b@.len(),
    ensures
        match spec_parse_members(b@, i as int) {
            SpecParsed::Found(ms, k) => match r {
                Ok(p) => view_json_members(p.0@) == ms && p.1 as int == k && i < p.1 <= b@.len(),
                Err(e) => false,
            },
            SpecParsed::Incomplete => r == Err::<(Vec<(Vec<u8>, JsonValue)>, usize), ParseStop>(
                ParseStop::Incomplete,
            ),
            SpecParsed::Bad => r == Err::<(Vec<(Vec<u8>, JsonValue)>, usize), ParseStop>(
                ParseStop::Bad,
            ),
        },
    decreases b@.len() - i, 1int,
{
    if i >= b.len() {
        return Err(ParseStop::Incomplete);
    }
    if b[i] != QUOTE {
        return Err(ParseStop::Bad);
    }
    match parse_string_body(b, i + 1) {
        Ok((key, i2)) => {
            let j = skip_ws(b, i2);
            if j >= b.len() {
                return Err(ParseStop::Incomplete);
            }
            if b[j] != COLON {
                return Err(ParseStop::Bad);
            }
            let j2 = skip_ws(b, j + 1);
            match parse_value(b, j2) {
                Ok((v, i3)) => {
                    let j3 = skip_ws(b, i3);
                    if j3 >= b.len() {
                        return Err(ParseStop::Incomplete);
                    }
                    if b[j3] == RBRACE {
                        let ghost gpair = (key@, view_json(v));
                        let mut ms: Vec<(Vec<u8>, JsonValue)> = Vec::new();
                        ms.push((key, v));
                        proof {
                            assert(ms@ =~= seq![ms@[0]] + Seq::<(Vec<u8>, JsonValue)>::empty());
                            lemma_view_json_members_cons(
                                ms@[0],
                                Seq::<(Vec<u8>, JsonValue)>::empty(),
                            );
                            assert(view_json_members(ms@) =~= seq![gpair]);
                        }
                        return Ok((ms, j3 + 1));
                    }
                    if b[j3] == COMMA {
                        let j4 = skip_ws(b, j3 + 1);
                        match parse_members(b, j4) {
                            Ok((mut rest, k)) => {
                                let ghost gpair = (key@, view_json(v));
                                let ghost restview = rest@;
                                rest.insert(0, (key, v));
                                proof {
                                    assert(rest@ =~= seq![rest@[0]] + restview);
                                    lemma_view_json_members_cons(rest@[0], restview);
                                    assert(view_json_members(rest@) =~= seq![gpair]
                                        + view_json_members(restview));
                                }
                                Ok((rest, k))
                            },
                            Err(stop) => Err(stop),
                        }
                    } else {
                        Err(ParseStop::Bad)
                    }
                },
                Err(stop) => Err(stop),
            }
        },
        Err(stop) => Err(stop),
    }
}

/// One or more array items, starting on the first byte of the first item,
/// up to and including the closing bracket.
pub fn parse_items(b: &[u8], i: usize) -> (r: Result<(Vec<JsonValue>, usize), ParseStop>)
    requires
        i <= b@.len(),
    ensures
        match spec_parse_items(b@, i as int) {
            SpecParsed::Found(vs, k) => match r {
                Ok(p) => view_json_seq(p.0@) == vs && p.1 as int == k && i < p.1 <= b@.len(),
                Err(e) => false,
            },
            SpecParsed::Incomplete => r == Err::<(Vec<JsonValue>, usize), ParseStop>(
                ParseStop::Incomplete,
            ),
            SpecParsed::Bad => r == Err::<(Vec<JsonValue>, usize), ParseStop>(ParseStop::Bad),
        },
    decreases b@.len() - i, 1int,
{
    if i >= b.len() {
        return Err(ParseStop::Incomplete);
    }
    match parse_value(b, i) {
        Ok((v, i2)) => {
            let j = skip_ws(b, i2);
            if j >= b.len() {
                return Err(ParseStop::Incomplete);
            }
            if b[j] == RBRACK {
                let ghost gv = view_json(v);
                let mut vs: Vec<JsonValue> = Vec::new();
                vs.push(v);
                proof {
                    assert(vs@ =~= seq![vs@[0]] + Seq::<JsonValue>::empty());
                    lemma_view_json_seq_cons(vs@[0], Seq::<JsonValue>::empty());
                    assert(view_json_seq(vs@) =~= seq![gv]);
                }
                return Ok((vs, j + 1));
            }
            if b[j] == COMMA {
                let j2 = skip_ws(b, j + 1);
                match parse_items(b, j2) {
                    Ok((mut rest, k)) => {
                        let ghost gv = view_json(v);
                        let ghost restview = rest@;
                        rest.insert(0, v);
                        proof {
                            assert(rest@ =~= seq![rest@[0]] + restview);
                            lemma_view_json_seq_cons(rest@[0], restview);
                            assert(view_json_seq(rest@) =~= seq![gv] + view_json_seq(restview));
                        }
                        Ok((rest, k))
                    },
                    Err(stop) => Err(stop),
                }
            } else {
                Err(ParseStop::Bad)
            }
        },
        Err(stop) => Err(stop),
    }
}

/// A whole document: one JSON value, optionally surrounded by whitespace,
/// spanning the entire buffer.
pub fn parse_document(b: &[u8]) -> (r: Result<JsonValue, ParseStop>)
    ensures
        match spec_parse_document(b@) {
            SpecParsed::Found(sv, n) => match r {
                Ok(v) => view_json(v) == sv && n == b@.len(),
                Err(e) => false,
            },
            SpecParsed::Incomplete => r == Err::<JsonValue, ParseStop>(ParseStop::Incomplete),
            SpecParsed::Bad => r == Err::<JsonValue, ParseStop>(ParseStop::Bad),
        },
{
    let s = skip_ws(b, 0);
    if s >= b.len() {
        return Err(ParseStop::Incomplete);
    }
    match parse_value(b, s) {
        Ok((v, j)) => {
            let t = skip_ws(b, j);
            if t < b.len() {
                Err(ParseStop::Bad)
            } else {
                Ok(v)
            }
        },
        Err(stop) => Err(stop),
    }
}

} // verus!
