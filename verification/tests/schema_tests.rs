use k8s_openapi::api_version;
use k8s_openapi::certificates::CertificateSigningRequestSpec;
use k8s_openapi::core_v1::PodSecurityContext;
use k8s_openapi::core_v1::SELinuxOptions;
use k8s_openapi::core_v1::Sysctl;
use k8s_openapi::error::JsonFault;
use k8s_openapi::error::SchemaFault;
use k8s_openapi::group;
use k8s_openapi::json::parse_document;
use k8s_openapi::json::JsonValue;
use k8s_openapi::kind;
use k8s_openapi::meta::Status;
use k8s_openapi::meta::TypeMeta;
use k8s_openapi::schema::FromJson;
use k8s_openapi::schema::ToJson;
use k8s_openapi::version;
use k8s_openapi::ByteString;

fn doc(text: &[u8]) -> JsonValue {
    parse_document(text).unwrap()
}

#[test]
fn pod_security_context_reads_all_fields() {
    let v = doc(
        b"{\"fsGroup\":1,\"runAsGroup\":2,\"runAsNonRoot\":false,\"runAsUser\":3,\
          \"seLinuxOptions\":{\"level\":\"s0\",\"type\":\"spc_t\"},\
          \"supplementalGroups\":[10,20,30],\
          \"sysctls\":[{\"name\":\"net.ipv4.tcp_syncookies\",\"value\":\"1\"}]}",
    );
    let psc = PodSecurityContext::from_json(&v).unwrap();
    assert_eq!(psc.fs_group, Some(1));
    assert_eq!(psc.run_as_group, Some(2));
    assert_eq!(psc.run_as_non_root, Some(false));
    assert_eq!(psc.run_as_user, Some(3));
    let selinux = psc.se_linux_options.unwrap();
    assert_eq!(selinux.level, Some("s0".to_string()));
    assert_eq!(selinux.role, None);
    assert_eq!(selinux.type_, Some("spc_t".to_string()));
    assert_eq!(psc.supplemental_groups, Some(vec![10, 20, 30]));
    assert_eq!(
        psc.sysctls,
        Some(vec![Sysctl {
            name: "net.ipv4.tcp_syncookies".to_string(),
            value: "1".to_string(),
        }])
    );
}

#[test]
fn unknown_fields_are_ignored() {
    let with_extra = doc(b"{\"fsGroup\":7,\"somethingNew\":{\"deep\":[1,2]}}");
    let without = doc(b"{\"fsGroup\":7}");
    let a = PodSecurityContext::from_json(&with_extra).unwrap();
    let b = PodSecurityContext::from_json(&without).unwrap();
    assert_eq!(a, b);

    let tm = doc(b"{\"kind\":\"Pod\",\"apiVersion\":\"v1\",\"metadata\":null}");
    let parsed = TypeMeta::from_json(&tm).unwrap();
    assert_eq!(parsed.kind, "Pod".to_string());
    assert_eq!(parsed.api_version, "v1".to_string());
}

#[test]
fn later_duplicate_keys_overwrite_earlier_ones() {
    let v = doc(b"{\"fsGroup\":1,\"fsGroup\":2}");
    let psc = PodSecurityContext::from_json(&v).unwrap();
    assert_eq!(psc.fs_group, Some(2));
}

#[test]
fn null_stands_for_absent() {
    let v = doc(b"{\"fsGroup\":null,\"runAsNonRoot\":null}");
    let psc = PodSecurityContext::from_json(&v).unwrap();
    assert_eq!(psc, PodSecurityContext {
        fs_group: None,
        run_as_group: None,
        run_as_non_root: None,
        run_as_user: None,
        se_linux_options: None,
        supplemental_groups: None,
        sysctls: None,
    });
}

#[test]
fn wrong_shape_is_reported() {
    let v = doc(b"{\"fsGroup\":\"ten\"}");
    assert_eq!(
        PodSecurityContext::from_json(&v),
        Err(SchemaFault::Json(JsonFault::WrongType))
    );
    let not_an_object = doc(b"[1,2]");
    assert_eq!(
        PodSecurityContext::from_json(&not_an_object),
        Err(SchemaFault::Json(JsonFault::WrongType))
    );
}

#[test]
fn missing_mandatory_field_is_reported() {
    let v = doc(b"{\"name\":\"net.core.somaxconn\"}");
    assert_eq!(
        Sysctl::from_json(&v),
        Err(SchemaFault::Json(JsonFault::MissingField))
    );
    let tm = doc(b"{\"kind\":\"Pod\"}");
    assert_eq!(
        TypeMeta::from_json(&tm),
        Err(SchemaFault::Json(JsonFault::MissingField))
    );
    let csr = doc(b"{\"username\":\"admin\"}");
    assert_eq!(
        CertificateSigningRequestSpec::from_json(&csr),
        Err(SchemaFault::Json(JsonFault::MissingField))
    );
}

#[test]
fn out_of_range_integer_is_reported() {
    let v = doc(b"{\"code\":3000000000}");
    assert_eq!(
        Status::from_json(&v),
        Err(SchemaFault::Json(JsonFault::IntOutOfRange))
    );
    let ok = doc(b"{\"code\":404}");
    assert_eq!(Status::from_json(&ok).unwrap().code, Some(404));
    // an integral number beyond the 64-bit range is out of range too
    let big = doc(b"{\"fsGroup\":9223372036854775808}");
    assert_eq!(
        PodSecurityContext::from_json(&big),
        Err(SchemaFault::Json(JsonFault::IntOutOfRange))
    );
    // the 64-bit boundary itself decodes
    let max = doc(b"{\"fsGroup\":9223372036854775807}");
    assert_eq!(
        PodSecurityContext::from_json(&max).unwrap().fs_group,
        Some(i64::MAX)
    );
}

#[test]
fn fractional_numbers_are_rejected_in_integer_fields_only() {
    // a fractional value in an integer field has the wrong shape
    let v = doc(b"{\"fsGroup\":1.5}");
    assert_eq!(
        PodSecurityContext::from_json(&v),
        Err(SchemaFault::Json(JsonFault::WrongType))
    );
    // but in an unknown field it is ignored: a newer server schema with a
    // fractional field stays readable
    let fwd = doc(b"{\"fsGroup\":7,\"newMetric\":1.5e3}");
    let psc = PodSecurityContext::from_json(&fwd).unwrap();
    assert_eq!(psc.fs_group, Some(7));
}

#[test]
fn escaped_text_decodes() {
    // servers escape angle brackets by default
    let v = doc(b"{\"message\":\"\\u003cnil\\u003e\"}");
    let st = Status::from_json(&v).unwrap();
    assert_eq!(st.message, Some("<nil>".to_string()));
}

#[test]
fn duplicate_extra_keys_keep_the_later_pair() {
    let v = doc(b"{\"request\":\"Zm9v\",\"extra\":{\"k\":[\"a\"],\"k\":[\"b\"]}}");
    let csr = CertificateSigningRequestSpec::from_json(&v).unwrap();
    assert_eq!(
        csr.extra,
        Some(vec![("k".to_string(), vec!["b".to_string()])])
    );
}

#[test]
fn certificate_request_reads_all_fields() {
    let v = doc(
        b"{\"extra\":{\"scopes\":[\"a\",\"b\"]},\"groups\":[\"system:authenticated\"],\
          \"request\":\"Zm9v\",\"uid\":\"42\",\"usages\":[\"client auth\"],\
          \"username\":\"admin\"}",
    );
    let csr = CertificateSigningRequestSpec::from_json(&v).unwrap();
    assert_eq!(
        csr.extra,
        Some(vec![("scopes".to_string(), vec!["a".to_string(), "b".to_string()])])
    );
    assert_eq!(csr.groups, Some(vec!["system:authenticated".to_string()]));
    assert_eq!(csr.request, ByteString(b"foo".to_vec()));
    assert_eq!(csr.uid, Some("42".to_string()));
    assert_eq!(csr.usages, Some(vec!["client auth".to_string()]));
    assert_eq!(csr.username, Some("admin".to_string()));
}

#[test]
fn certificate_request_rejects_bad_base64() {
    let v = doc(b"{\"request\":\"Zm9\"}");
    assert_eq!(
        CertificateSigningRequestSpec::from_json(&v),
        Err(SchemaFault::Json(JsonFault::InvalidEncoding))
    );
}

#[test]
fn non_ascii_text_decodes() {
    // "héllo" in UTF-8: the accented character is two bytes on the wire
    let v = doc(b"{\"message\":\"h\xc3\xa9llo\"}");
    let st = Status::from_json(&v).unwrap();
    assert_eq!(st.message, Some("h\u{e9}llo".to_string()));
}

#[test]
fn serialization_writes_only_present_fields() {
    let psc = PodSecurityContext {
        fs_group: Some(9),
        run_as_group: None,
        run_as_non_root: Some(true),
        run_as_user: None,
        se_linux_options: None,
        supplemental_groups: Some(vec![5]),
        sysctls: None,
    };
    match psc.to_json() {
        JsonValue::Obj(members) => {
            assert_eq!(members.len(), 3);
            assert_eq!(members[0].0, b"fsGroup".to_vec());
            assert!(matches!(members[0].1, JsonValue::Int(9)));
            assert_eq!(members[1].0, b"runAsNonRoot".to_vec());
            assert!(matches!(members[1].1, JsonValue::Bool(true)));
            assert_eq!(members[2].0, b"supplementalGroups".to_vec());
        }
        other => panic!("expected an object, got {:?}", other),
    }
}

#[test]
fn serialization_round_trips_through_deserialization() {
    let original = CertificateSigningRequestSpec {
        extra: Some(vec![("k".to_string(), vec!["v".to_string()])]),
        groups: Some(vec!["g1".to_string(), "g2".to_string()]),
        request: ByteString(vec![1, 2, 3]),
        uid: None,
        usages: Some(vec![]),
        username: Some("u".to_string()),
    };
    let wire = original.to_json();
    let back = CertificateSigningRequestSpec::from_json(&wire).unwrap();
    assert_eq!(back, original);

    let selinux = SELinuxOptions {
        level: Some("s0:c1".to_string()),
        role: None,
        type_: Some("t".to_string()),
        user: None,
    };
    let wire = selinux.to_json();
    let back = SELinuxOptions::from_json(&wire).unwrap();
    assert_eq!(back, selinux);
}

#[test]
fn resource_identity_of_the_error_detail_shape() {
    let st = Status {
        code: None,
        message: None,
        reason: None,
        status: None,
    };
    assert_eq!(group(&st), "");
    assert_eq!(version(&st), "v1");
    assert_eq!(kind(&st), "Status");
    // no group, so the composite apiVersion is just the version
    assert_eq!(api_version(&st), "v1");
}
