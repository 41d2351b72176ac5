//! Schema types of the certificates API group: the immutable description of
//! a certificate signing request.

use vstd::prelude::*;
use vstd::utf8::decode_utf8;
use vstd::utf8::encode_utf8;
use vstd::utf8::valid_utf8;

use crate::codec::spec_b64_encode;
use crate::codec::ByteString;
use crate::core_v1::key_bytes;
use crate::core_v1::opt_string_member;
use crate::error::JsonFault;
use crate::error::SchemaFault;
use crate::json::bytes_eq;
use crate::json::lemma_view_json_members;
use crate::json::lemma_view_json_members_snoc;
use crate::json::lemma_view_json_seq_cons;
use crate::json::view_json;
use crate::json::view_json_members;
use crate::json::view_json_seq;
use crate::json::JsonValue;
use crate::json::SpecJson;
use crate::schema::conv_byte_string;
use crate::schema::conv_opt_string;
use crate::schema::conv_opt_string_seq;
use crate::schema::conv_string_items;
use crate::schema::spec_byte_string;
use crate::schema::spec_opt_string;
use crate::schema::spec_opt_string_seq;
use crate::schema::spec_string_items;
use crate::schema::utf8_to_string;
use crate::schema::view_opt_string;
use crate::schema::view_opt_string_seq;
use crate::schema::FromJson;
use crate::schema::ToJson;

verus! {

broadcast use vstd::seq::group_seq_axioms;

/// This information is immutable after the request is created.  Only the
/// request and usages fields can be set on creation; other fields are
/// derived by the server and cannot be modified by users.
#[derive(Clone, Debug, PartialEq)]
pub struct CertificateSigningRequestSpec {
    /// Extra information about the requesting user: named groups of values.
    pub extra: Option<Vec<(String, Vec<String>)>>,
    /// Group information about the requesting user.
    pub groups: Option<Vec<String>>,
    /// Base64-encoded PKCS#10 CSR data.
    pub request: ByteString,
    /// UID information about the requesting user.
    pub uid: Option<String>,
    /// The set of usage contexts the key will be valid for.
    pub usages: Option<Vec<String>>,
    /// Information about the requesting user.
    pub username: Option<String>,
}

/// The model of a [`CertificateSigningRequestSpec`].
pub struct SpecCertificateSigningRequestSpec {
    /// The named groups of extra values, keyed uniquely: a key repeated on
    /// the wire keeps only its last pair.
    pub extra: Option<Seq<(Seq<char>, Seq<Seq<char>>)>>,
    /// The group information.
    pub groups: Option<Seq<Seq<char>>>,
    /// The raw CSR bytes.
    pub request: Seq<u8>,
    /// The UID information.
    pub uid: Option<Seq<char>>,
    /// The usage contexts.
    pub usages: Option<Seq<Seq<char>>>,
    /// The username.
    pub username: Option<Seq<char>>,
}

/// The model of the extra-information pairs.
pub open spec fn view_extra(v: Vec<(String, Vec<String>)>) -> Seq<(Seq<char>, Seq<Seq<char>>)> {
    Seq::new(v@.len(), |i: int| (v@[i].0@, v@[i].1.deep_view()))
}

impl View for CertificateSigningRequestSpec {
    type V = SpecCertificateSigningRequestSpec;

    open spec fn view(&self) -> SpecCertificateSigningRequestSpec {
        SpecCertificateSigningRequestSpec {
            extra: match self.extra {
                Some(xs) => Some(view_extra(xs)),
                None => None,
            },
            groups: view_opt_string_seq(self.groups),
            request: self.request@,
            uid: view_opt_string(self.uid),
            usages: view_opt_string_seq(self.usages),
            username: view_opt_string(self.username),
        }
    }
}

/// Whether the decoded pairs already hold the given key.
pub open spec fn extra_has_key(xs: Seq<(Seq<char>, Seq<Seq<char>>)>, k: Seq<char>) -> bool {
    exists|t: int| 0 <= t < xs.len() && xs[t].0 == k
}

/// The pairs of an extra-information object: each key is UTF-8 text and
/// each value is an array of strings.  A key repeated later on the wire
/// replaces the earlier pair, as inserting into a map would, so the decoded
/// pairs carry pairwise distinct keys; every pair is validated even when it
/// is replaced.
pub open spec fn spec_extra_items(ms: Seq<(Seq<u8>, SpecJson)>) -> Result<
    Seq<(Seq<char>, Seq<Seq<char>>)>,
    SchemaFault,
>
    decreases ms.len(),
{
    if ms.len() == 0 {
        Ok(Seq::empty())
    } else if !valid_utf8(ms[0].0) {
        Err(SchemaFault::Utf8)
    } else {
        match ms[0].1 {
            SpecJson::Arr(items) => match spec_string_items(items) {
                Ok(vals) => match spec_extra_items(ms.drop_first()) {
                    Ok(rest) => if extra_has_key(rest, decode_utf8(ms[0].0)) {
                        Ok(rest)
                    } else {
                        Ok(seq![(decode_utf8(ms[0].0), vals)] + rest)
                    },
                    Err(f) => Err(f),
                },
                Err(f) => Err(f),
            },
            _ => Err(SchemaFault::Json(JsonFault::WrongType)),
        }
    }
}

/// Key uniqueness of the extra information: the decoded pairs never repeat
/// a key, whatever the wire object held.
pub proof fn lemma_extra_keys_unique(
    ms: Seq<(Seq<u8>, SpecJson)>,
    xs: Seq<(Seq<char>, Seq<Seq<char>>)>,
)
    requires
        spec_extra_items(ms) == Ok::<Seq<(Seq<char>, Seq<Seq<char>>)>, SchemaFault>(xs),
    ensures
        forall|t1: int, t2: int| 0 <= t1 < t2 < xs.len() ==> xs[t1].0 != xs[t2].0,
    decreases ms.len(),
{
    if ms.len() > 0 && valid_utf8(ms[0].0) {
        match ms[0].1 {
            SpecJson::Arr(items) => match spec_string_items(items) {
                Ok(vals) => match spec_extra_items(ms.drop_first()) {
                    Ok(rest) => {
                        lemma_extra_keys_unique(ms.drop_first(), rest);
                        if !extra_has_key(rest, decode_utf8(ms[0].0)) {
                            assert forall|t1: int, t2: int|
                                0 <= t1 < t2 < xs.len() implies xs[t1].0 != xs[t2].0 by {
                                if t1 == 0 {
                                    assert(xs[t2] == rest[t2 - 1]);
                                    assert(!(0 <= t2 - 1 < rest.len() && rest[t2 - 1].0
                                        == decode_utf8(ms[0].0)));
                                } else {
                                    assert(xs[t1] == rest[t1 - 1]);
                                    assert(xs[t2] == rest[t2 - 1]);
                                }
                            }
                        }
                    },
                    Err(f) => {},
                },
                Err(f) => {},
            },
            _ => {},
        }
    }
}

/// Whether the converted pairs already hold the given key.
fn extra_contains_key(xs: &Vec<(String, Vec<String>)>, k: &String) -> (r: bool)
    ensures
        r == extra_has_key(view_extra(*xs), k@),
{
    let n = xs.len();
    let mut t: usize = 0;
    while t < n
        invariant
            0 <= t <= n,
            n == xs@.len(),
            forall|q: int| 0 <= q < t ==> view_extra(*xs)[q].0 != k@,
        decreases n - t,
    {
        if xs[t].0 == *k {
            assert(view_extra(*xs)[t as int].0 == k@);
            return true;
        }
        t += 1;
    }
    false
}

/// An optional extra-information field: `null` stands for absent.
pub open spec fn spec_opt_extra(v: SpecJson) -> Result<
    Option<Seq<(Seq<char>, Seq<Seq<char>>)>>,
    SchemaFault,
> {
    match v {
        SpecJson::Null => Ok(None),
        SpecJson::Obj(ms) => match spec_extra_items(ms) {
            Ok(xs) => Ok(Some(xs)),
            Err(f) => Err(f),
        },
        _ => Err(SchemaFault::Json(JsonFault::WrongType)),
    }
}

/// Reads the pairs of an extra-information object, from `idx` on.
fn conv_extra_items(members: &Vec<(Vec<u8>, JsonValue)>, idx: usize) -> (r: Result<
    Vec<(String, Vec<String>)>,
    SchemaFault,
>)
    requires
        idx <= members@.len(),
    ensures
        ({
            let m = spec_extra_items(view_json_members(members@).skip(idx as int));
            match m {
                Ok(xs) => match r {
                    Ok(out) => view_extra(out) == xs,
                    Err(e) => false,
                },
                Err(f) => r == Err::<Vec<(String, Vec<String>)>, SchemaFault>(f),
            }
        }),
    decreases members@.len() - idx,
{
    proof {
        lemma_view_json_members(members@);
    }
    if idx == members.len() {
        let out: Vec<(String, Vec<String>)> = Vec::new();
        assert(view_extra(out) =~= Seq::<(Seq<char>, Seq<Seq<char>>)>::empty());
        return Ok(out);
    }
    let ghost tail = view_json_members(members@).skip(idx as int);
    proof {
        assert(tail[0] == view_json_members(members@)[idx as int]);
        assert(tail.drop_first() =~= view_json_members(members@).skip(idx as int + 1));
    }
    let key = &members[idx].0;
    let val = &members[idx].1;
    let key_text = match utf8_to_string(key.as_slice()) {
        Some(s) => s,
        None => { return Err(SchemaFault::Utf8) },
    };
    let items = match val {
        JsonValue::Arr(items) => items,
        _ => { return Err(SchemaFault::Json(JsonFault::WrongType)) },
    };
    proof {
        assert(view_json_seq(items@).skip(0) =~= view_json_seq(items@));
    }
    let vals = match conv_string_items(items, 0) {
        Ok(vals) => vals,
        Err(f) => { return Err(f) },
    };
    let ghost gpair = (key_text@, vals.deep_view());
    match conv_extra_items(members, idx + 1) {
        Ok(mut rest) => {
            if extra_contains_key(&rest, &key_text) {
                // a later pair with the same key already replaced this one
                Ok(rest)
            } else {
                let ghost restview = view_extra(rest);
                rest.insert(0, (key_text, vals));
                proof {
                    assert(view_extra(rest) =~= seq![gpair] + restview);
                }
                Ok(rest)
            }
        },
        Err(f) => Err(f),
    }
}

/// The fields of a [`CertificateSigningRequestSpec`] as they accumulate
/// while its object is read.
pub struct SpecCsrAcc {
    /// The extra information, once seen.
    pub extra: Option<Seq<(Seq<char>, Seq<Seq<char>>)>>,
    /// The groups, once seen.
    pub groups: Option<Seq<Seq<char>>>,
    /// The CSR bytes, once seen.
    pub request: Option<Seq<u8>>,
    /// The UID, once seen.
    pub uid: Option<Seq<char>>,
    /// The usages, once seen.
    pub usages: Option<Seq<Seq<char>>>,
    /// The username, once seen.
    pub username: Option<Seq<char>>,
}

/// One member applied to the accumulating fields.
pub open spec fn csr_step(acc: SpecCsrAcc, key: Seq<u8>, v: SpecJson) -> Result<
    SpecCsrAcc,
    SchemaFault,
> {
    if key == key_bytes("extra") {
        match spec_opt_extra(v) {
            Ok(x) => Ok(SpecCsrAcc { extra: x, ..acc }),
            Err(f) => Err(f),
        }
    } else if key == key_bytes("groups") {
        match spec_opt_string_seq(v) {
            Ok(x) => Ok(SpecCsrAcc { groups: x, ..acc }),
            Err(f) => Err(f),
        }
    } else if key == key_bytes("request") {
        match spec_byte_string(v) {
            Ok(x) => Ok(SpecCsrAcc { request: Some(x), ..acc }),
            Err(f) => Err(f),
        }
    } else if key == key_bytes("uid") {
        match spec_opt_string(v) {
            Ok(x) => Ok(SpecCsrAcc { uid: x, ..acc }),
            Err(f) => Err(f),
        }
    } else if key == key_bytes("usages") {
        match spec_opt_string_seq(v) {
            Ok(x) => Ok(SpecCsrAcc { usages: x, ..acc }),
            Err(f) => Err(f),
        }
    } else if key == key_bytes("username") {
        match spec_opt_string(v) {
            Ok(x) => Ok(SpecCsrAcc { username: x, ..acc }),
            Err(f) => Err(f),
        }
    } else {
        Ok(acc)
    }
}

/// The members of an object applied in order to the accumulating fields.
pub open spec fn csr_fold(ms: Seq<(Seq<u8>, SpecJson)>, acc: SpecCsrAcc) -> Result<
    SpecCsrAcc,
    SchemaFault,
>
    decreases ms.len(),
{
    if ms.len() == 0 {
        Ok(acc)
    } else {
        match csr_step(acc, ms[0].0, ms[0].1) {
            Ok(a2) => csr_fold(ms.drop_first(), a2),
            Err(f) => Err(f),
        }
    }
}

/// The accumulator with every field absent.
pub open spec fn csr_init() -> SpecCsrAcc {
    SpecCsrAcc {
        extra: None,
        groups: None,
        request: None,
        uid: None,
        usages: None,
        username: None,
    }
}

/// The request field is mandatory; everything else is optional.
pub open spec fn csr_finish(acc: SpecCsrAcc) -> Result<
    SpecCertificateSigningRequestSpec,
    SchemaFault,
> {
    match acc.request {
        Some(req) => Ok(
            SpecCertificateSigningRequestSpec {
                extra: acc.extra,
                groups: acc.groups,
                request: req,
                uid: acc.uid,
                usages: acc.usages,
                username: acc.username,
            },
        ),
        None => Err(SchemaFault::Json(JsonFault::MissingField)),
    }
}

impl FromJson for CertificateSigningRequestSpec {
    open spec fn spec_from_json(v: SpecJson) -> Result<
        SpecCertificateSigningRequestSpec,
        SchemaFault,
    > {
        match v {
            SpecJson::Obj(ms) => match csr_fold(ms, csr_init()) {
                Ok(acc) => csr_finish(acc),
                Err(f) => Err(f),
            },
            _ => Err(SchemaFault::Json(JsonFault::WrongType)),
        }
    }

    #[verifier::loop_isolation(false)]
    #[verifier::rlimit(100)]
    #[verifier::spinoff_prover]
    fn from_json(v: &JsonValue) -> (r: Result<CertificateSigningRequestSpec, SchemaFault>) {
        let members = match v {
            JsonValue::Obj(ms) => ms,
            _ => { return Err(SchemaFault::Json(JsonFault::WrongType)) },
        };
        let ghost gms = view_json_members(members@);
        proof {
            lemma_view_json_members(members@);
            assert(gms.skip(0) =~= gms);
        }
        let mut extra_acc: Option<Vec<(String, Vec<String>)>> = None;
        let mut groups_acc: Option<Vec<String>> = None;
        let mut request_acc: Option<ByteString> = None;
        let mut uid_acc: Option<String> = None;
        let mut usages_acc: Option<Vec<String>> = None;
        let mut username_acc: Option<String> = None;
        let n = members.len();
        let mut idx: usize = 0;
        while idx < n
            invariant
                n == members@.len(),
                gms == view_json_members(members@),
                gms.len() == n,
                forall|t: int|
                    0 <= t < n ==> gms[t] == (members@[t].0@, view_json(members@[t].1)),
                0 <= idx <= n,
                csr_fold(gms, csr_init()) == csr_fold(
                    gms.skip(idx as int),
                    SpecCsrAcc {
                        extra: match extra_acc {
                            Some(xs) => Some(view_extra(xs)),
                            None => None,
                        },
                        groups: view_opt_string_seq(groups_acc),
                        request: match request_acc {
                            Some(b) => Some(b@),
                            None => None,
                        },
                        uid: view_opt_string(uid_acc),
                        usages: view_opt_string_seq(usages_acc),
                        username: view_opt_string(username_acc),
                    },
                ),
            decreases n - idx,
        {
            let ghost tail = gms.skip(idx as int);
            proof {
                assert(tail[0] == gms[idx as int]);
                assert(tail.drop_first() =~= gms.skip(idx as int + 1));
            }
            let key = &members[idx].0;
            let val = &members[idx].1;
            if bytes_eq(key.as_slice(), "extra".as_bytes()) {
                match val {
                    JsonValue::Null => extra_acc = None,
                    JsonValue::Obj(pairs) => {
                        proof {
                            assert(view_json_members(pairs@).skip(0) =~= view_json_members(
                                pairs@,
                            ));
                        }
                        match conv_extra_items(pairs, 0) {
                            Ok(x) => extra_acc = Some(x),
                            Err(f) => { return Err(f) },
                        }
                    },
                    _ => { return Err(SchemaFault::Json(JsonFault::WrongType)) },
                }
            } else if bytes_eq(key.as_slice(), "groups".as_bytes()) {
                match conv_opt_string_seq(val) {
                    Ok(x) => groups_acc = x,
                    Err(f) => { return Err(f) },
                }
            } else if bytes_eq(key.as_slice(), "request".as_bytes()) {
                match conv_byte_string(val) {
                    Ok(x) => request_acc = Some(x),
                    Err(f) => { return Err(f) },
                }
            } else if bytes_eq(key.as_slice(), "uid".as_bytes()) {
                match conv_opt_string(val) {
                    Ok(x) => uid_acc = x,
                    Err(f) => { return Err(f) },
                }
            } else if bytes_eq(key.as_slice(), "usages".as_bytes()) {
                match conv_opt_string_seq(val) {
                    Ok(x) => usages_acc = x,
                    Err(f) => { return Err(f) },
                }
            } else if bytes_eq(key.as_slice(), "username".as_bytes()) {
                match conv_opt_string(val) {
                    Ok(x) => username_acc = x,
                    Err(f) => { return Err(f) },
                }
            }
            idx += 1;
        }
        proof {
            assert(gms.skip(n as int) =~= Seq::<(Seq<u8>, SpecJson)>::empty());
        }
        match request_acc {
            Some(req) => Ok(
                CertificateSigningRequestSpec {
                    extra: extra_acc,
                    groups: groups_acc,
                    request: req,
                    uid: uid_acc,
                    usages: usages_acc,
                    username: username_acc,
                },
            ),
            None => Err(SchemaFault::Json(JsonFault::MissingField)),
        }
    }
}

/// The wire form of a list of strings.
pub open spec fn strings_json(xs: Seq<Seq<char>>) -> Seq<SpecJson>
    decreases xs.len(),
{
    if xs.len() == 0 {
        Seq::empty()
    } else {
        seq![SpecJson::Str(encode_utf8(xs[0]))] + strings_json(xs.drop_first())
    }
}

/// Writes a list of strings as JSON values, from `idx` on.
fn strings_to_values(xs: &Vec<String>, idx: usize) -> (r: Vec<JsonValue>)
    requires
        idx <= xs@.len(),
    ensures
        view_json_seq(r@) == strings_json(xs.deep_view().skip(idx as int)),
    decreases xs@.len() - idx,
{
    if idx == xs.len() {
        let out: Vec<JsonValue> = Vec::new();
        assert(view_json_seq(out@) =~= strings_json(xs.deep_view().skip(idx as int)));
        return out;
    }
    let ghost tail = xs.deep_view().skip(idx as int);
    proof {
        assert(tail[0] == xs.deep_view()[idx as int]);
        assert(tail.drop_first() =~= xs.deep_view().skip(idx as int + 1));
    }
    let head = JsonValue::Str(xs[idx].as_str().as_bytes_vec());
    let ghost ghead = view_json(head);
    let mut rest = strings_to_values(xs, idx + 1);
    let ghost restview = rest@;
    rest.insert(0, head);
    proof {
        assert(rest@ =~= seq![rest@[0]] + restview);
        lemma_view_json_seq_cons(rest@[0], restview);
        assert(view_json_seq(rest@) =~= strings_json(tail));
    }
    rest
}

/// The wire form of the extra-information pairs.
pub open spec fn extra_json(xs: Seq<(Seq<char>, Seq<Seq<char>>)>) -> Seq<(Seq<u8>, SpecJson)>
    decreases xs.len(),
{
    if xs.len() == 0 {
        Seq::empty()
    } else {
        seq![(encode_utf8(xs[0].0), SpecJson::Arr(strings_json(xs[0].1)))] + extra_json(
            xs.drop_first(),
        )
    }
}

/// Writes the extra-information pairs as JSON members, from `idx` on.
fn extra_to_members(xs: &Vec<(String, Vec<String>)>, idx: usize) -> (r: Vec<
    (Vec<u8>, JsonValue),
>)
    requires
        idx <= xs@.len(),
    ensures
        view_json_members(r@) == extra_json(view_extra(*xs).skip(idx as int)),
    decreases xs@.len() - idx,
{
    if idx == xs.len() {
        let out: Vec<(Vec<u8>, JsonValue)> = Vec::new();
        assert(view_json_members(out@) =~= extra_json(view_extra(*xs).skip(idx as int)));
        return out;
    }
    let ghost tail = view_extra(*xs).skip(idx as int);
    proof {
        assert(tail[0] == view_extra(*xs)[idx as int]);
        assert(tail.drop_first() =~= view_extra(*xs).skip(idx as int + 1));
    }
    proof {
        assert(xs@[idx as int].1.deep_view().skip(0) =~= xs@[idx as int].1.deep_view());
    }
    let key = xs[idx].0.as_str().as_bytes_vec();
    let vals = strings_to_values(&xs[idx].1, 0);
    let head = (key, JsonValue::Arr(vals));
    let ghost ghead = (head.0@, view_json(head.1));
    let mut rest = extra_to_members(xs, idx + 1);
    let ghost restview = rest@;
    rest.insert(0, head);
    proof {
        assert(rest@ =~= seq![rest@[0]] + restview);
        crate::json::lemma_view_json_members_cons(rest@[0], restview);
        assert(view_json_members(rest@) =~= extra_json(tail));
    }
    rest
}

/// The wire form of an optional array-of-strings field.
pub open spec fn opt_strings_member(key: Seq<u8>, m: Option<Seq<Seq<char>>>) -> Seq<
    (Seq<u8>, SpecJson),
> {
    match m {
        Some(xs) => seq![(key, SpecJson::Arr(strings_json(xs)))],
        None => Seq::empty(),
    }
}

impl ToJson for CertificateSigningRequestSpec {
    open spec fn spec_to_json(m: SpecCertificateSigningRequestSpec) -> SpecJson {
        SpecJson::Obj(
            (match m.extra {
                Some(xs) => seq![(key_bytes("extra"), SpecJson::Obj(extra_json(xs)))],
                None => Seq::<(Seq<u8>, SpecJson)>::empty(),
            }) + opt_strings_member(key_bytes("groups"), m.groups) + seq![
                (key_bytes("request"), SpecJson::Str(spec_b64_encode(m.request))),
            ] + opt_string_member(key_bytes("uid"), m.uid) + opt_strings_member(
                key_bytes("usages"),
                m.usages,
            ) + opt_string_member(key_bytes("username"), m.username),
        )
    }

    #[verifier::rlimit(100)]
    #[verifier::spinoff_prover]
    fn to_json(&self) -> (r: JsonValue) {
        let ghost m = self@;
        let mut ms: Vec<(Vec<u8>, JsonValue)> = Vec::new();
        proof {
            assert(view_json_members(ms@) =~= Seq::<(Seq<u8>, SpecJson)>::empty());
        }
        let ghost seg0 = match m.extra {
            Some(xs) => seq![(key_bytes("extra"), SpecJson::Obj(extra_json(xs)))],
            None => Seq::<(Seq<u8>, SpecJson)>::empty(),
        };
        if let Some(xs) = &self.extra {
            let ghost before = ms@;
            proof {
                assert(view_extra(*xs).skip(0) =~= view_extra(*xs));
            }
            let pairs = extra_to_members(xs, 0);
            ms.push(("extra".as_bytes_vec(), JsonValue::Obj(pairs)));
            proof {
                lemma_view_json_members_snoc(before, ms@.last());
            }
        }
        proof {
            assert(view_json_members(ms@) =~= seg0);
        }
        let ghost seg1 = seg0 + opt_strings_member(key_bytes("groups"), m.groups);
        if let Some(xs) = &self.groups {
            let ghost before = ms@;
            proof {
                assert(xs.deep_view().skip(0) =~= xs.deep_view());
            }
            let vals = strings_to_values(xs, 0);
            ms.push(("groups".as_bytes_vec(), JsonValue::Arr(vals)));
            proof {
                lemma_view_json_members_snoc(before, ms@.last());
            }
        }
        proof {
            assert(view_json_members(ms@) =~= seg1);
        }
        let ghost seg2 = seg1 + seq![
            (key_bytes("request"), SpecJson::Str(spec_b64_encode(m.request))),
        ];
        let ghost before2 = ms@;
        ms.push(("request".as_bytes_vec(), JsonValue::Str(self.request.to_base64())));
        proof {
            lemma_view_json_members_snoc(before2, ms@.last());
            assert(view_json_members(ms@) =~= seg2);
        }
        let ghost seg3 = seg2 + opt_string_member(key_bytes("uid"), m.uid);
        if let Some(x) = &self.uid {
            let ghost before = ms@;
            ms.push(("uid".as_bytes_vec(), JsonValue::Str(x.as_str().as_bytes_vec())));
            proof {
                lemma_view_json_members_snoc(before, ms@.last());
            }
        }
        proof {
            assert(view_json_members(ms@) =~= seg3);
        }
        let ghost seg4 = seg3 + opt_strings_member(key_bytes("usages"), m.usages);
        if let Some(xs) = &self.usages {
            let ghost before = ms@;
            proof {
                assert(xs.deep_view().skip(0) =~= xs.deep_view());
            }
            let vals = strings_to_values(xs, 0);
            ms.push(("usages".as_bytes_vec(), JsonValue::Arr(vals)));
            proof {
                lemma_view_json_members_snoc(before, ms@.last());
            }
        }
        proof {
            assert(view_json_members(ms@) =~= seg4);
        }
        let ghost seg5 = seg4 + opt_string_member(key_bytes("username"), m.username);
        if let Some(x) = &self.username {
            let ghost before = ms@;
            ms.push(("username".as_bytes_vec(), JsonValue::Str(x.as_str().as_bytes_vec())));
            proof {
                lemma_view_json_members_snoc(before, ms@.last());
            }
        }
        proof {
            assert(view_json_members(ms@) =~= seg5);
        }
        JsonValue::Obj(ms)
    }
}

} // verus!
