use k8s_openapi::json::JsonValue;
use k8s_openapi::schema::ToJson;
use k8s_openapi::ObjectResponse;
use k8s_openapi::PodSecurityContext;
use k8s_openapi::ResponseBody;
use k8s_openapi::ResponseError;
use k8s_openapi::Sysctl;
use k8s_openapi::TypeMeta;

#[test]
fn split_mid_key_needs_more_then_completes() {
    // the identity header requires both apiVersion and kind
    let mut body = ResponseBody::new(200);
    body.append_slice(b"{\"kind\":\"Pod\",\"api");
    let first: Result<ObjectResponse<TypeMeta>, ResponseError> = body.parse();
    assert!(matches!(first, Err(ResponseError::NeedMoreData)));
    // the buffer is left exactly as appended
    assert_eq!(body.as_slice(), b"{\"kind\":\"Pod\",\"api".as_ref());
    body.append_slice(b"Version\":\"v1\"}");
    let second: Result<ObjectResponse<TypeMeta>, ResponseError> = body.parse();
    match second {
        Ok(ObjectResponse::Success(tm)) => {
            assert_eq!(tm.api_version, "v1".to_string());
            assert_eq!(tm.kind, "Pod".to_string());
        }
        other => panic!("expected a decoded identity header, got {:?}", other),
    }
    // the successful decode consumed the entire buffer
    assert_eq!(body.as_slice(), b"".as_ref());
}

#[test]
fn error_status_selects_error_detail_shape() {
    // 404 maps to the error-detail shape, and the body must decode as that
    // shape even though it also satisfies the success shape (every field of
    // PodSecurityContext is optional, so any object would do).
    let mut body = ResponseBody::new(404);
    body.append_slice(b"{\"message\":\"not found\"}");
    let parsed: Result<ObjectResponse<PodSecurityContext>, ResponseError> = body.parse();
    match parsed {
        Ok(ObjectResponse::ErrorStatus(st)) => {
            assert_eq!(st.message, Some("not found".to_string()));
            assert_eq!(st.code, None);
        }
        other => panic!("expected the error-detail variant, got {:?}", other),
    }
    assert_eq!(body.as_slice(), b"".as_ref());
}

#[test]
fn success_status_selects_typed_shape() {
    let mut body = ResponseBody::new(200);
    body.append_slice(b"{\"fsGroup\":55,\"runAsNonRoot\":true}");
    let parsed: Result<ObjectResponse<PodSecurityContext>, ResponseError> = body.parse();
    match parsed {
        Ok(ObjectResponse::Success(psc)) => {
            assert_eq!(psc.fs_group, Some(55));
            assert_eq!(psc.run_as_non_root, Some(true));
            assert_eq!(psc.run_as_user, None);
        }
        other => panic!("expected the typed success variant, got {:?}", other),
    }
}

#[test]
fn chunked_appends_decode_like_one_append() {
    let whole: &[u8] = b"{\"kind\":\"Pod\",\"apiVersion\":\"v1\"}";

    // decoded in one shot
    let mut at_once = ResponseBody::new(200);
    at_once.append_slice(whole);
    let reference: TypeMeta = match at_once.parse::<ObjectResponse<TypeMeta>>() {
        Ok(ObjectResponse::Success(tm)) => tm,
        other => panic!("expected success, got {:?}", other),
    };

    // decoded from every two-way split of the same body
    for cut in 0..whole.len() {
        let mut body = ResponseBody::new(200);
        body.append_slice(&whole[..cut]);
        let early: Result<ObjectResponse<TypeMeta>, ResponseError> = body.parse();
        assert!(
            matches!(early, Err(ResponseError::NeedMoreData)),
            "a strict prefix must not decode (cut at {})",
            cut
        );
        body.append_slice(&whole[cut..]);
        match body.parse::<ObjectResponse<TypeMeta>>() {
            Ok(ObjectResponse::Success(tm)) => assert_eq!(tm, reference),
            other => panic!("expected success after the final chunk, got {:?}", other),
        }
    }

    // and byte by byte
    let mut body = ResponseBody::new(200);
    for i in 0..whole.len() - 1 {
        body.append_slice(&whole[i..i + 1]);
        let step: Result<ObjectResponse<TypeMeta>, ResponseError> = body.parse();
        assert!(matches!(step, Err(ResponseError::NeedMoreData)));
    }
    body.append_slice(&whole[whole.len() - 1..]);
    match body.parse::<ObjectResponse<TypeMeta>>() {
        Ok(ObjectResponse::Success(tm)) => assert_eq!(tm, reference),
        other => panic!("expected success after the last byte, got {:?}", other),
    }
}

#[test]
fn append_slice_and_parse_combines_both_steps() {
    let mut body = ResponseBody::new(200);
    let first: Result<ObjectResponse<TypeMeta>, ResponseError> =
        body.append_slice_and_parse(b"{\"kind\":\"Pod\",");
    assert!(matches!(first, Err(ResponseError::NeedMoreData)));
    let second: Result<ObjectResponse<TypeMeta>, ResponseError> =
        body.append_slice_and_parse(b"\"apiVersion\":\"v1\"}");
    assert!(matches!(second, Ok(ObjectResponse::Success(_))));
}

#[test]
fn malformed_body_is_terminal_and_keeps_bytes() {
    let mut body = ResponseBody::new(200);
    body.append_slice(b"} nonsense");
    let parsed: Result<ObjectResponse<TypeMeta>, ResponseError> = body.parse();
    assert!(matches!(parsed, Err(ResponseError::Json(_))));
    // the raw bytes remain available for diagnostics
    assert_eq!(body.as_slice(), b"} nonsense".as_ref());
}

#[test]
fn unrecognized_status_falls_back_to_generic_value() {
    let mut body = ResponseBody::new(302);
    body.append_slice(b"[1,2]");
    let parsed: Result<ObjectResponse<TypeMeta>, ResponseError> = body.parse();
    assert!(matches!(parsed, Ok(ObjectResponse::Other(Some(_)))));

    let mut empty = ResponseBody::new(302);
    let parsed_empty: Result<ObjectResponse<TypeMeta>, ResponseError> = empty.parse();
    assert!(matches!(parsed_empty, Ok(ObjectResponse::Other(None))));
}

#[test]
fn leftover_bytes_stay_for_a_second_parse() {
    // a fresh parse can be issued against bytes appended after a success
    let mut body = ResponseBody::new(200);
    body.append_slice(b"{\"kind\":\"Pod\",\"apiVersion\":\"v1\"}");
    let first: Result<ObjectResponse<TypeMeta>, ResponseError> = body.parse();
    assert!(matches!(first, Ok(ObjectResponse::Success(_))));
    assert_eq!(body.as_slice(), b"".as_ref());
    body.append_slice(b"{\"kind\":\"Node\",\"apiVersion\":\"v1\"}");
    let second: Result<ObjectResponse<TypeMeta>, ResponseError> = body.parse();
    match second {
        Ok(ObjectResponse::Success(tm)) => assert_eq!(tm.kind, "Node".to_string()),
        other => panic!("expected a second decoded value, got {:?}", other),
    }
}

#[test]
fn status_code_is_kept() {
    let body = ResponseBody::new(404);
    assert_eq!(body.status_code, 404);
    assert_eq!(body.status(), 404);
}

#[test]
fn invalid_utf8_text_reports_utf8_error() {
    let mut body = ResponseBody::new(404);
    body.append_slice(b"{\"message\":\"\xff\xfe\"}");
    let parsed: Result<ObjectResponse<PodSecurityContext>, ResponseError> = body.parse();
    assert!(matches!(parsed, Err(ResponseError::Utf8)));
}

#[test]
fn error_messages_name_the_condition() {
    assert_eq!(
        ResponseError::NeedMoreData.message(),
        "need more response data"
    );
    assert_eq!(
        ResponseError::Utf8.message(),
        "response data is not valid utf-8"
    );
}

#[test]
fn status_ranges_select_shapes_at_their_boundaries() {
    // 2xx boundary codes decode the typed shape
    for code in [200u16, 201, 299] {
        let mut body = ResponseBody::new(code);
        body.append_slice(b"{\"kind\":\"Pod\",\"apiVersion\":\"v1\"}");
        let parsed: Result<ObjectResponse<TypeMeta>, ResponseError> = body.parse();
        assert!(matches!(parsed, Ok(ObjectResponse::Success(_))), "code {}", code);
    }
    // 4xx and 5xx boundary codes decode the error-detail shape
    for code in [400u16, 404, 500, 599] {
        let mut body = ResponseBody::new(code);
        body.append_slice(b"{\"message\":\"no\"}");
        let parsed: Result<ObjectResponse<TypeMeta>, ResponseError> = body.parse();
        assert!(matches!(parsed, Ok(ObjectResponse::ErrorStatus(_))), "code {}", code);
    }
    // everything else falls back to the generic value
    for code in [100u16, 199, 300, 399, 600] {
        let mut body = ResponseBody::new(code);
        body.append_slice(b"{\"message\":\"no\"}");
        let parsed: Result<ObjectResponse<TypeMeta>, ResponseError> = body.parse();
        assert!(matches!(parsed, Ok(ObjectResponse::Other(Some(_)))), "code {}", code);
    }
}

#[test]
fn pod_security_context_round_trips_through_the_buffer() {
    let original = PodSecurityContext {
        fs_group: Some(2000),
        run_as_group: None,
        run_as_non_root: Some(true),
        run_as_user: Some(1000),
        se_linux_options: None,
        supplemental_groups: Some(vec![1, 2, 3]),
        sysctls: Some(vec![Sysctl {
            name: "kernel.shm_rmid_forced".to_string(),
            value: "0".to_string(),
        }]),
    };
    // serialize to the document tree, write an equivalent body by hand,
    // and decode it back through the streaming buffer
    match original.to_json() {
        JsonValue::Obj(members) => assert_eq!(members.len(), 5),
        other => panic!("expected an object, got {:?}", other),
    }
    let wire = b"{\"fsGroup\":2000,\"runAsNonRoot\":true,\"runAsUser\":1000,\
                 \"supplementalGroups\":[1,2,3],\
                 \"sysctls\":[{\"name\":\"kernel.shm_rmid_forced\",\"value\":\"0\"}]}";
    let mut body = ResponseBody::new(200);
    body.append_slice(wire);
    match body.parse::<ObjectResponse<PodSecurityContext>>() {
        Ok(ObjectResponse::Success(psc)) => assert_eq!(psc, original),
        other => panic!("expected the decoded context, got {:?}", other),
    }
}

#[test]
fn chunking_mid_escape_and_mid_number_loses_nothing() {
    // the kind is written with an escaped letter; cutting inside the escape
    // must read as incomplete, never as malformed or as a different value
    let escaped: &[u8] = b"{\"kind\":\"P\\u006fd\",\"apiVersion\":\"v1\"}";
    for cut in 1..escaped.len() {
        let mut body = ResponseBody::new(200);
        body.append_slice(&escaped[..cut]);
        let early: Result<ObjectResponse<TypeMeta>, ResponseError> = body.parse();
        assert!(matches!(early, Err(ResponseError::NeedMoreData)), "cut at {}", cut);
        body.append_slice(&escaped[cut..]);
        match body.parse::<ObjectResponse<TypeMeta>>() {
            Ok(ObjectResponse::Success(tm)) => assert_eq!(tm.kind, "Pod".to_string()),
            other => panic!("expected success after the final chunk, got {:?}", other),
        }
    }

    // cutting inside a number must also read as incomplete, because the
    // object around it still lacks its closing brace
    let numeric: &[u8] = b"{\"fsGroup\":120}";
    for cut in 1..numeric.len() {
        let mut body = ResponseBody::new(200);
        body.append_slice(&numeric[..cut]);
        let early: Result<ObjectResponse<PodSecurityContext>, ResponseError> = body.parse();
        assert!(matches!(early, Err(ResponseError::NeedMoreData)), "cut at {}", cut);
        body.append_slice(&numeric[cut..]);
        match body.parse::<ObjectResponse<PodSecurityContext>>() {
            Ok(ObjectResponse::Success(psc)) => assert_eq!(psc.fs_group, Some(120)),
            other => panic!("expected success after the final chunk, got {:?}", other),
        }
    }
}
