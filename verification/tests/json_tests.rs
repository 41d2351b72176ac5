use k8s_openapi::json::bytes_eq;
use k8s_openapi::json::parse_document;
use k8s_openapi::json::JsonValue;
use k8s_openapi::json::ParseStop;

#[test]
fn parses_simple_object() {
    let doc = parse_document(b"{\"a\":1}").unwrap();
    match doc {
        JsonValue::Obj(members) => {
            assert_eq!(members.len(), 1);
            assert_eq!(members[0].0, b"a".to_vec());
            assert!(matches!(members[0].1, JsonValue::Int(1)));
        }
        other => panic!("expected an object, got {:?}", other),
    }
}

#[test]
fn parses_nested_structures() {
    let doc = parse_document(b" { \"xs\" : [ 1 , -2 , true , null , \"s\" ] } ").unwrap();
    match doc {
        JsonValue::Obj(members) => {
            assert_eq!(members.len(), 1);
            match &members[0].1 {
                JsonValue::Arr(items) => {
                    assert_eq!(items.len(), 5);
                    assert!(matches!(items[0], JsonValue::Int(1)));
                    assert!(matches!(items[1], JsonValue::Int(-2)));
                    assert!(matches!(items[2], JsonValue::Bool(true)));
                    assert!(matches!(items[3], JsonValue::Null));
                    assert!(matches!(&items[4], JsonValue::Str(s) if s == b"s"));
                }
                other => panic!("expected an array, got {:?}", other),
            }
        }
        other => panic!("expected an object, got {:?}", other),
    }
}

#[test]
fn incomplete_prefixes_ask_for_more() {
    assert_eq!(parse_document(b"").unwrap_err(), ParseStop::Incomplete);
    assert_eq!(parse_document(b"   ").unwrap_err(), ParseStop::Incomplete);
    assert_eq!(parse_document(b"{").unwrap_err(), ParseStop::Incomplete);
    assert_eq!(parse_document(b"{\"a\"").unwrap_err(), ParseStop::Incomplete);
    assert_eq!(parse_document(b"{\"a\":1").unwrap_err(), ParseStop::Incomplete);
    assert_eq!(parse_document(b"[1,2").unwrap_err(), ParseStop::Incomplete);
    assert_eq!(parse_document(b"\"abc").unwrap_err(), ParseStop::Incomplete);
    assert_eq!(parse_document(b"tru").unwrap_err(), ParseStop::Incomplete);
}

#[test]
fn malformed_documents_are_terminal() {
    assert_eq!(parse_document(b"{a}").unwrap_err(), ParseStop::Bad);
    assert_eq!(parse_document(b"{\"a\" 1}").unwrap_err(), ParseStop::Bad);
    assert_eq!(parse_document(b"trux").unwrap_err(), ParseStop::Bad);
    assert_eq!(parse_document(b"{} garbage").unwrap_err(), ParseStop::Bad);
}

#[test]
fn parses_integers() {
    assert!(matches!(parse_document(b"-42").unwrap(), JsonValue::Int(-42)));
    assert!(matches!(parse_document(b"0").unwrap(), JsonValue::Int(0)));
    assert!(matches!(
        parse_document(b"1234567890123456789").unwrap(),
        JsonValue::Int(1234567890123456789)
    ));
    // the 64-bit boundary values decode exactly
    assert!(matches!(
        parse_document(b"9223372036854775807").unwrap(),
        JsonValue::Int(i64::MAX)
    ));
    assert!(matches!(
        parse_document(b"-9223372036854775808").unwrap(),
        JsonValue::Int(i64::MIN)
    ));
    // an integral number beyond the 64-bit range keeps its raw text
    match parse_document(b"9223372036854775808").unwrap() {
        JsonValue::Num(t) => assert_eq!(t, b"9223372036854775808".to_vec()),
        other => panic!("expected raw number text, got {:?}", other),
    }
    match parse_document(b"123456789012345678901234567890").unwrap() {
        JsonValue::Num(t) => assert_eq!(t.len(), 30),
        other => panic!("expected raw number text, got {:?}", other),
    }
    // leading zeros are not JSON
    assert_eq!(parse_document(b"01").unwrap_err(), ParseStop::Bad);
}

#[test]
fn parses_fractions_and_exponents_as_raw_text() {
    match parse_document(b"1.5").unwrap() {
        JsonValue::Num(t) => assert_eq!(t, b"1.5".to_vec()),
        other => panic!("expected raw number text, got {:?}", other),
    }
    match parse_document(b"-2.5e-3").unwrap() {
        JsonValue::Num(t) => assert_eq!(t, b"-2.5e-3".to_vec()),
        other => panic!("expected raw number text, got {:?}", other),
    }
    match parse_document(b"1E+10").unwrap() {
        JsonValue::Num(t) => assert_eq!(t, b"1E+10".to_vec()),
        other => panic!("expected raw number text, got {:?}", other),
    }
    // a fraction or exponent must have digits
    assert_eq!(parse_document(b"1.x").unwrap_err(), ParseStop::Bad);
    assert_eq!(parse_document(b"1ex").unwrap_err(), ParseStop::Bad);
    // a dangling fraction or exponent marker may still be completed
    assert_eq!(parse_document(b"1.").unwrap_err(), ParseStop::Incomplete);
    assert_eq!(parse_document(b"1e").unwrap_err(), ParseStop::Incomplete);
    assert_eq!(parse_document(b"1e+").unwrap_err(), ParseStop::Incomplete);
}

#[test]
fn unescapes_strings() {
    let doc = parse_document(b"\"a\\n\\t\\\"\\\\\"").unwrap();
    match doc {
        JsonValue::Str(s) => assert_eq!(s, vec![b'a', 0x0a, 0x09, b'"', b'\\']),
        other => panic!("expected a string, got {:?}", other),
    }
}

#[test]
fn unicode_escapes_decode_to_utf8() {
    // a plain code unit
    match parse_document(b"\"\\u0041\"").unwrap() {
        JsonValue::Str(s) => assert_eq!(s, b"A".to_vec()),
        other => panic!("expected a string, got {:?}", other),
    }
    // the angle brackets some servers escape by default
    match parse_document(b"\"\\u003cnil\\u003e\"").unwrap() {
        JsonValue::Str(s) => assert_eq!(s, b"<nil>".to_vec()),
        other => panic!("expected a string, got {:?}", other),
    }
    // a two-byte and a three-byte scalar
    match parse_document(b"\"\\u00e9\\u20aC\"").unwrap() {
        JsonValue::Str(s) => assert_eq!(s, "\u{e9}\u{20ac}".as_bytes().to_vec()),
        other => panic!("expected a string, got {:?}", other),
    }
    // a surrogate pair denotes one four-byte scalar
    match parse_document(b"\"\\uD83D\\uDE00\"").unwrap() {
        JsonValue::Str(s) => assert_eq!(s, "\u{1F600}".as_bytes().to_vec()),
        other => panic!("expected a string, got {:?}", other),
    }
}

#[test]
fn bad_unicode_escapes_are_malformed() {
    // a lone leading surrogate, a lone trailing surrogate, and bad hex
    assert_eq!(parse_document(b"\"\\uD83Dx\"").unwrap_err(), ParseStop::Bad);
    assert_eq!(parse_document(b"\"\\uDE00\"").unwrap_err(), ParseStop::Bad);
    assert_eq!(parse_document(b"\"\\uZZZZ\"").unwrap_err(), ParseStop::Bad);
    // a truncated escape may still be completed
    assert_eq!(parse_document(b"\"\\u00").unwrap_err(), ParseStop::Incomplete);
    assert_eq!(parse_document(b"\"\\uD83D").unwrap_err(), ParseStop::Incomplete);
    assert_eq!(parse_document(b"\"\\uD83D\\uDE").unwrap_err(), ParseStop::Incomplete);
}

#[test]
fn bytes_eq_compares_contents() {
    assert!(bytes_eq(b"abc", b"abc"));
    assert!(!bytes_eq(b"abc", b"abd"));
    assert!(!bytes_eq(b"abc", b"ab"));
    assert!(bytes_eq(b"", b""));
}
