//! Schema types shared by every API group: the identity header carried by
//! serialized resources and the generic error-detail object that servers
//! return for failed operations.

use vstd::prelude::*;
use vstd::utf8::encode_utf8;

use crate::core_v1::key_bytes;
use crate::error::JsonFault;
use crate::error::SchemaFault;
use crate::json::bytes_eq;
use crate::json::lemma_view_json_members;
use crate::json::lemma_view_json_members_snoc;
use crate::json::view_json;
use crate::json::view_json_members;
use crate::json::JsonValue;
use crate::json::SpecJson;
use crate::schema::conv_opt_i32;
use crate::schema::conv_opt_string;
use crate::schema::conv_string;
use crate::schema::spec_opt_i32;
use crate::schema::spec_opt_string;
use crate::schema::spec_string;
use crate::schema::view_opt_string;
use crate::schema::FromJson;
use crate::schema::ToJson;
use crate::Resource;

verus! {

broadcast use vstd::seq::group_seq_axioms;

/// The identity header carried by every serialized resource: the composite
/// API version and the kind.  Both fields are mandatory.
#[derive(Clone, Debug, PartialEq)]
pub struct TypeMeta {
    /// The composite `apiVersion` string of the resource.
    pub api_version: String,
    /// The kind of the resource.
    pub kind: String,
}

/// The model of a [`TypeMeta`].
pub struct SpecTypeMeta {
    /// The composite `apiVersion` string.
    pub api_version: Seq<char>,
    /// The kind.
    pub kind: Seq<char>,
}

impl View for TypeMeta {
    type V = SpecTypeMeta;

    open spec fn view(&self) -> SpecTypeMeta {
        SpecTypeMeta { api_version: self.api_version@, kind: self.kind@ }
    }
}

/// The fields of a [`TypeMeta`] as they accumulate while its object is read.
pub struct SpecTypeMetaAcc {
    /// The composite `apiVersion`, once seen.
    pub api_version: Option<Seq<char>>,
    /// The kind, once seen.
    pub kind: Option<Seq<char>>,
}

/// Whether `k` is one of the keys [`TypeMeta`] reads.
pub open spec fn type_meta_known_key(k: Seq<u8>) -> bool {
    k == key_bytes("apiVersion") || k == key_bytes("kind")
}

/// One member applied to the accumulating [`TypeMeta`] fields.
pub open spec fn type_meta_step(acc: SpecTypeMetaAcc, key: Seq<u8>, v: SpecJson) -> Result<
    SpecTypeMetaAcc,
    SchemaFault,
> {
    if key == key_bytes("apiVersion") {
        match spec_string(v) {
            Ok(x) => Ok(SpecTypeMetaAcc { api_version: Some(x), ..acc }),
            Err(f) => Err(f),
        }
    } else if key == key_bytes("kind") {
        match spec_string(v) {
            Ok(x) => Ok(SpecTypeMetaAcc { kind: Some(x), ..acc }),
            Err(f) => Err(f),
        }
    } else {
        Ok(acc)
    }
}

/// The members of an object applied in order to the accumulating fields.
pub open spec fn type_meta_fold(ms: Seq<(Seq<u8>, SpecJson)>, acc: SpecTypeMetaAcc) -> Result<
    SpecTypeMetaAcc,
    SchemaFault,
>
    decreases ms.len(),
{
    if ms.len() == 0 {
        Ok(acc)
    } else {
        match type_meta_step(acc, ms[0].0, ms[0].1) {
            Ok(a2) => type_meta_fold(ms.drop_first(), a2),
            Err(f) => Err(f),
        }
    }
}

/// Both fields of a [`TypeMeta`] are mandatory.
pub open spec fn type_meta_finish(acc: SpecTypeMetaAcc) -> Result<SpecTypeMeta, SchemaFault> {
    match (acc.api_version, acc.kind) {
        (Some(a), Some(k)) => Ok(SpecTypeMeta { api_version: a, kind: k }),
        _ => Err(SchemaFault::Json(JsonFault::MissingField)),
    }
}

impl FromJson for TypeMeta {
    open spec fn spec_from_json(v: SpecJson) -> Result<SpecTypeMeta, SchemaFault> {
        match v {
            SpecJson::Obj(ms) => match type_meta_fold(
                ms,
                SpecTypeMetaAcc { api_version: None, kind: None },
            ) {
                Ok(acc) => type_meta_finish(acc),
                Err(f) => Err(f),
            },
            _ => Err(SchemaFault::Json(JsonFault::WrongType)),
        }
    }

    #[verifier::loop_isolation(false)]
    fn from_json(v: &JsonValue) -> (r: Result<TypeMeta, SchemaFault>) {
        let members = match v {
            JsonValue::Obj(ms) => ms,
            _ => { return Err(SchemaFault::Json(JsonFault::WrongType)) },
        };
        let ghost gms = view_json_members(members@);
        proof {
            lemma_view_json_members(members@);
            assert(gms.skip(0) =~= gms);
        }
        let mut api_version_acc: Option<String> = None;
        let mut kind_acc: Option<String> = None;
        let n = members.len();
        let mut idx: usize = 0;
        while idx < n
            invariant
                n == members@.len(),
                gms == view_json_members(members@),
                gms.len() == n,
                forall|t: int|
                    0 <= t < n ==> gms[t] == (members@[t].0@, view_json(members@[t].1)),
                0 <= idx <= n,
                type_meta_fold(gms, SpecTypeMetaAcc { api_version: None, kind: None })
                    == type_meta_fold(
                    gms.skip(idx as int),
                    SpecTypeMetaAcc {
                        api_version: view_opt_string(api_version_acc),
                        kind: view_opt_string(kind_acc),
                    },
                ),
            decreases n - idx,
        {
            let ghost tail = gms.skip(idx as int);
            proof {
                assert(tail[0] == gms[idx as int]);
                assert(tail.drop_first() =~= gms.skip(idx as int + 1));
            }
            let key = &members[idx].0;
            let val = &members[idx].1;
            if bytes_eq(key.as_slice(), "apiVersion".as_bytes()) {
                match conv_string(val) {
                    Ok(x) => api_version_acc = Some(x),
                    Err(f) => { return Err(f) },
                }
            } else if bytes_eq(key.as_slice(), "kind".as_bytes()) {
                match conv_string(val) {
                    Ok(x) => kind_acc = Some(x),
                    Err(f) => { return Err(f) },
                }
            }
            idx += 1;
        }
        proof {
            assert(gms.skip(n as int) =~= Seq::<(Seq<u8>, SpecJson)>::empty());
        }
        match (api_version_acc, kind_acc) {
            (Some(a), Some(k)) => Ok(TypeMeta { api_version: a, kind: k }),
            _ => Err(SchemaFault::Json(JsonFault::MissingField)),
        }
    }
}

impl ToJson for TypeMeta {
    open spec fn spec_to_json(m: SpecTypeMeta) -> SpecJson {
        SpecJson::Obj(
            seq![
                (key_bytes("apiVersion"), SpecJson::Str(encode_utf8(m.api_version))),
                (key_bytes("kind"), SpecJson::Str(encode_utf8(m.kind))),
            ],
        )
    }

    fn to_json(&self) -> (r: JsonValue) {
        let ghost m = self@;
        let mut ms: Vec<(Vec<u8>, JsonValue)> = Vec::new();
        proof {
            assert(view_json_members(ms@) =~= Seq::<(Seq<u8>, SpecJson)>::empty());
        }
        let ghost b0 = ms@;
        ms.push((
            "apiVersion".as_bytes_vec(),
            JsonValue::Str(self.api_version.as_str().as_bytes_vec()),
        ));
        proof {
            lemma_view_json_members_snoc(b0, ms@.last());
        }
        let ghost b1 = ms@;
        ms.push(("kind".as_bytes_vec(), JsonValue::Str(self.kind.as_str().as_bytes_vec())));
        proof {
            lemma_view_json_members_snoc(b1, ms@.last());
            assert(view_json_members(ms@) =~= seq![
                (key_bytes("apiVersion"), SpecJson::Str(encode_utf8(m.api_version))),
                (key_bytes("kind"), SpecJson::Str(encode_utf8(m.kind))),
            ]);
        }
        JsonValue::Obj(ms)
    }
}

/// A member list extended by an unrecognized key folds to the same fields.
proof fn lemma_type_meta_fold_unknown(
    ms: Seq<(Seq<u8>, SpecJson)>,
    acc: SpecTypeMetaAcc,
    k: Seq<u8>,
    v: SpecJson,
)
    requires
        !type_meta_known_key(k),
    ensures
        type_meta_fold(ms.push((k, v)), acc) == type_meta_fold(ms, acc),
    decreases ms.len(),
{
    if ms.len() == 0 {
        assert(ms.push((k, v)).drop_first() =~= Seq::<(Seq<u8>, SpecJson)>::empty());
        assert(ms.push((k, v))[0] == (k, v));
        assert(type_meta_step(acc, k, v) == Ok::<SpecTypeMetaAcc, SchemaFault>(acc));
        assert(type_meta_fold(Seq::<(Seq<u8>, SpecJson)>::empty(), acc) == Ok::<
            SpecTypeMetaAcc,
            SchemaFault,
        >(acc));
    } else {
        assert(ms.push((k, v))[0] == ms[0]);
        assert(ms.push((k, v)).drop_first() =~= ms.drop_first().push((k, v)));
        match type_meta_step(acc, ms[0].0, ms[0].1) {
            Ok(a2) => {
                lemma_type_meta_fold_unknown(ms.drop_first(), a2, k, v);
                assert(type_meta_fold(ms, acc) == type_meta_fold(ms.drop_first(), a2));
                assert(type_meta_fold(ms.push((k, v)), acc) == type_meta_fold(
                    ms.drop_first().push((k, v)),
                    a2,
                ));
            },
            Err(f) => {},
        }
    }
}

/// Unknown-field forward compatibility for the identity header: an object
/// with one extra, unrecognized member deserializes to exactly what the
/// object without it deserializes to.
pub proof fn lemma_type_meta_unknown_field_ignored(
    ms: Seq<(Seq<u8>, SpecJson)>,
    k: Seq<u8>,
    v: SpecJson,
)
    requires
        !type_meta_known_key(k),
    ensures
        TypeMeta::spec_from_json(SpecJson::Obj(ms.push((k, v)))) == TypeMeta::spec_from_json(
            SpecJson::Obj(ms),
        ),
{
    lemma_type_meta_fold_unknown(ms, SpecTypeMetaAcc { api_version: None, kind: None }, k, v);
}

/// Status is a return value for calls that don't return other objects: the
/// error-detail shape that servers answer failed operations with.
#[derive(Clone, Debug, PartialEq)]
pub struct Status {
    /// Suggested HTTP return code for this status, 0 if not set.
    pub code: Option<i32>,
    /// A human-readable description of this operation's status.
    pub message: Option<String>,
    /// A machine-readable description of why this operation is in this
    /// status.
    pub reason: Option<String>,
    /// The status of the operation: `"Success"` or `"Failure"`.
    pub status: Option<String>,
}

/// The model of a [`Status`].
pub struct SpecStatus {
    /// The suggested HTTP return code.
    pub code: Option<i32>,
    /// The human-readable description.
    pub message: Option<Seq<char>>,
    /// The machine-readable reason.
    pub reason: Option<Seq<char>>,
    /// The status of the operation.
    pub status: Option<Seq<char>>,
}

impl View for Status {
    type V = SpecStatus;

    open spec fn view(&self) -> SpecStatus {
        SpecStatus {
            code: self.code,
            message: view_opt_string(self.message),
            reason: view_opt_string(self.reason),
            status: view_opt_string(self.status),
        }
    }
}

impl Resource for Status {
    open spec fn spec_group() -> Seq<char> {
        ""@
    }

    open spec fn spec_version() -> Seq<char> {
        "v1"@
    }

    open spec fn spec_kind() -> Seq<char> {
        "Status"@
    }

    fn group() -> (r: &'static str) {
        ""
    }

    fn version() -> (r: &'static str) {
        "v1"
    }

    fn kind() -> (r: &'static str) {
        "Status"
    }

    fn api_version() -> (r: &'static str) {
        proof {
            reveal_strlit("");
        }
        "v1"
    }
}

/// One member applied to the accumulating [`Status`] model.
pub open spec fn status_step(acc: SpecStatus, key: Seq<u8>, v: SpecJson) -> Result<
    SpecStatus,
    SchemaFault,
> {
    if key == key_bytes("code") {
        match spec_opt_i32(v) {
            Ok(x) => Ok(SpecStatus { code: x, ..acc }),
            Err(f) => Err(f),
        }
    } else if key == key_bytes("message") {
        match spec_opt_string(v) {
            Ok(x) => Ok(SpecStatus { message: x, ..acc }),
            Err(f) => Err(f),
        }
    } else if key == key_bytes("reason") {
        match spec_opt_string(v) {
            Ok(x) => Ok(SpecStatus { reason: x, ..acc }),
            Err(f) => Err(f),
        }
    } else if key == key_bytes("status") {
        match spec_opt_string(v) {
            Ok(x) => Ok(SpecStatus { status: x, ..acc }),
            Err(f) => Err(f),
        }
    } else {
        Ok(acc)
    }
}

/// The members of an object applied in order to the accumulating model.
pub open spec fn status_fold(ms: Seq<(Seq<u8>, SpecJson)>, acc: SpecStatus) -> Result<
    SpecStatus,
    SchemaFault,
>
    decreases ms.len(),
{
    if ms.len() == 0 {
        Ok(acc)
    } else {
        match status_step(acc, ms[0].0, ms[0].1) {
            Ok(a2) => status_fold(ms.drop_first(), a2),
            Err(f) => Err(f),
        }
    }
}

/// The model with every field absent.
pub open spec fn status_init() -> SpecStatus {
    SpecStatus { code: None, message: None, reason: None, status: None }
}

impl FromJson for Status {
    open spec fn spec_from_json(v: SpecJson) -> Result<SpecStatus, SchemaFault> {
        match v {
            SpecJson::Obj(ms) => status_fold(ms, status_init()),
            _ => Err(SchemaFault::Json(JsonFault::WrongType)),
        }
    }

    #[verifier::loop_isolation(false)]
    fn from_json(v: &JsonValue) -> (r: Result<Status, SchemaFault>) {
        let members = match v {
            JsonValue::Obj(ms) => ms,
            _ => { return Err(SchemaFault::Json(JsonFault::WrongType)) },
        };
        let ghost gms = view_json_members(members@);
        proof {
            lemma_view_json_members(members@);
            assert(gms.skip(0) =~= gms);
        }
        let mut acc = Status { code: None, message: None, reason: None, status: None };
        let n = members.len();
        let mut idx: usize = 0;
        while idx < n
            invariant
                n == members@.len(),
                gms == view_json_members(members@),
                gms.len() == n,
                forall|t: int|
                    0 <= t < n ==> gms[t] == (members@[t].0@, view_json(members@[t].1)),
                0 <= idx <= n,
                status_fold(gms, status_init()) == status_fold(gms.skip(idx as int), acc@),
            decreases n - idx,
        {
            let ghost tail = gms.skip(idx as int);
            proof {
                assert(tail[0] == gms[idx as int]);
                assert(tail.drop_first() =~= gms.skip(idx as int + 1));
            }
            let key = &members[idx].0;
            let val = &members[idx].1;
            if bytes_eq(key.as_slice(), "code".as_bytes()) {
                match conv_opt_i32(val) {
                    Ok(x) => acc.code = x,
                    Err(f) => { return Err(f) },
                }
            } else if bytes_eq(key.as_slice(), "message".as_bytes()) {
                match conv_opt_string(val) {
                    Ok(x) => acc.message = x,
                    Err(f) => { return Err(f) },
                }
            } else if bytes_eq(key.as_slice(), "reason".as_bytes()) {
                match conv_opt_string(val) {
                    Ok(x) => acc.reason = x,
                    Err(f) => { return Err(f) },
                }
            } else if bytes_eq(key.as_slice(), "status".as_bytes()) {
                match conv_opt_string(val) {
                    Ok(x) => acc.status = x,
                    Err(f) => { return Err(f) },
                }
            }
            idx += 1;
        }
        proof {
            assert(gms.skip(n as int) =~= Seq::<(Seq<u8>, SpecJson)>::empty());
        }
        Ok(acc)
    }
}

impl ToJson for Status {
    open spec fn spec_to_json(m: SpecStatus) -> SpecJson {
        SpecJson::Obj(
            (match m.code {
                Some(x) => seq![(key_bytes("code"), SpecJson::Int(x as int))],
                None => Seq::<(Seq<u8>, SpecJson)>::empty(),
            }) + crate::core_v1::opt_string_member(key_bytes("message"), m.message)
                + crate::core_v1::opt_string_member(key_bytes("reason"), m.reason)
                + crate::core_v1::opt_string_member(key_bytes("status"), m.status),
        )
    }

    fn to_json(&self) -> (r: JsonValue) {
        let ghost m = self@;
        let mut ms: Vec<(Vec<u8>, JsonValue)> = Vec::new();
        proof {
            assert(view_json_members(ms@) =~= Seq::<(Seq<u8>, SpecJson)>::empty());
        }
        let ghost seg0 = match m.code {
            Some(x) => seq![(key_bytes("code"), SpecJson::Int(x as int))],
            None => Seq::<(Seq<u8>, SpecJson)>::empty(),
        };
        if let Some(x) = self.code {
            let ghost before = ms@;
            ms.push(("code".as_bytes_vec(), JsonValue::Int(x as i64)));
            proof {
                lemma_view_json_members_snoc(before, ms@.last());
            }
        }
        proof {
            assert(view_json_members(ms@) =~= seg0);
        }
        let ghost seg1 = seg0 + crate::core_v1::opt_string_member(key_bytes("message"), m.message);
        if let Some(x) = &self.message {
            let ghost before = ms@;
            ms.push(("message".as_bytes_vec(), JsonValue::Str(x.as_str().as_bytes_vec())));
            proof {
                lemma_view_json_members_snoc(before, ms@.last());
            }
        }
        proof {
            assert(view_json_members(ms@) =~= seg1);
        }
        let ghost seg2 = seg1 + crate::core_v1::opt_string_member(key_bytes("reason"), m.reason);
        if let Some(x) = &self.reason {
            let ghost before = ms@;
            ms.push(("reason".as_bytes_vec(), JsonValue::Str(x.as_str().as_bytes_vec())));
            proof {
                lemma_view_json_members_snoc(before, ms@.last());
            }
        }
        proof {
            assert(view_json_members(ms@) =~= seg2);
        }
        let ghost seg3 = seg2 + crate::core_v1::opt_string_member(key_bytes("status"), m.status);
        if let Some(x) = &self.status {
            let ghost before = ms@;
            ms.push(("status".as_bytes_vec(), JsonValue::Str(x.as_str().as_bytes_vec())));
            proof {
                lemma_view_json_members_snoc(before, ms@.last());
            }
        }
        proof {
            assert(view_json_members(ms@) =~= seg3);
        }
        JsonValue::Obj(ms)
    }
}

} // verus!
