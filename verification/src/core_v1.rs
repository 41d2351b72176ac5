//! Schema types of the core API group: pod-level security settings.

use vstd::prelude::*;
use vstd::utf8::encode_utf8;

use crate::error::JsonFault;
use crate::error::SchemaFault;
use crate::json::bytes_eq;
use crate::json::lemma_view_json_members;
use crate::json::lemma_view_json_members_snoc;
use crate::json::lemma_view_json_seq;
use crate::json::view_json;
use crate::json::view_json_members;
use crate::json::view_json_seq;
use crate::json::JsonValue;
use crate::json::SpecJson;
use crate::schema::conv_opt_bool;
use crate::schema::conv_opt_i64;
use crate::schema::conv_opt_i64_seq;
use crate::schema::conv_opt_string;
use crate::schema::conv_string;
use crate::schema::spec_opt_bool;
use crate::schema::spec_opt_i64;
use crate::schema::spec_opt_i64_seq;
use crate::schema::spec_opt_string;
use crate::schema::spec_string;
use crate::schema::view_opt_i64_seq;
use crate::schema::view_opt_string;
use crate::schema::FromJson;
use crate::schema::ToJson;

verus! {

broadcast use vstd::seq::group_seq_axioms;

/// The bytes of an object key written as a string literal.
pub open spec fn key_bytes(s: &str) -> Seq<u8> {
    encode_utf8(s@)
}

/// SELinuxOptions are the labels to be applied to a container.
#[derive(Clone, Debug, PartialEq)]
pub struct SELinuxOptions {
    /// Level is SELinux level label that applies to the container.
    pub level: Option<String>,
    /// Role is a SELinux role label that applies to the container.
    pub role: Option<String>,
    /// Type is a SELinux type label that applies to the container.
    pub type_: Option<String>,
    /// User is a SELinux user label that applies to the container.
    pub user: Option<String>,
}

/// The model of a [`SELinuxOptions`].
pub struct SpecSELinuxOptions {
    /// The level label.
    pub level: Option<Seq<char>>,
    /// The role label.
    pub role: Option<Seq<char>>,
    /// The type label.
    pub type_: Option<Seq<char>>,
    /// The user label.
    pub user: Option<Seq<char>>,
}

impl View for SELinuxOptions {
    type V = SpecSELinuxOptions;

    open spec fn view(&self) -> SpecSELinuxOptions {
        SpecSELinuxOptions {
            level: view_opt_string(self.level),
            role: view_opt_string(self.role),
            type_: view_opt_string(self.type_),
            user: view_opt_string(self.user),
        }
    }
}

impl DeepView for SELinuxOptions {
    type V = SpecSELinuxOptions;

    open spec fn deep_view(&self) -> SpecSELinuxOptions {
        self.view()
    }
}

/// One member applied to the accumulating [`SELinuxOptions`] model:
/// a known key updates its field, an unknown key is ignored.
pub open spec fn selinux_step(
    acc: SpecSELinuxOptions,
    key: Seq<u8>,
    v: SpecJson,
) -> Result<SpecSELinuxOptions, SchemaFault> {
    if key == key_bytes("level") {
        match spec_opt_string(v) {
            Ok(x) => Ok(SpecSELinuxOptions { level: x, ..acc }),
            Err(f) => Err(f),
        }
    } else if key == key_bytes("role") {
        match spec_opt_string(v) {
            Ok(x) => Ok(SpecSELinuxOptions { role: x, ..acc }),
            Err(f) => Err(f),
        }
    } else if key == key_bytes("type") {
        match spec_opt_string(v) {
            Ok(x) => Ok(SpecSELinuxOptions { type_: x, ..acc }),
            Err(f) => Err(f),
        }
    } else if key == key_bytes("user") {
        match spec_opt_string(v) {
            Ok(x) => Ok(SpecSELinuxOptions { user: x, ..acc }),
            Err(f) => Err(f),
        }
    } else {
        Ok(acc)
    }
}

/// The members of an object applied in order to the accumulating model.
pub open spec fn selinux_fold(
    ms: Seq<(Seq<u8>, SpecJson)>,
    acc: SpecSELinuxOptions,
) -> Result<SpecSELinuxOptions, SchemaFault>
    decreases ms.len(),
{
    if ms.len() == 0 {
        Ok(acc)
    } else {
        match selinux_step(acc, ms[0].0, ms[0].1) {
            Ok(a2) => selinux_fold(ms.drop_first(), a2),
            Err(f) => Err(f),
        }
    }
}

/// The model with every field absent.
pub open spec fn selinux_init() -> SpecSELinuxOptions {
    SpecSELinuxOptions { level: None, role: None, type_: None, user: None }
}

impl FromJson for SELinuxOptions {
    open spec fn spec_from_json(v: SpecJson) -> Result<SpecSELinuxOptions, SchemaFault> {
        match v {
            SpecJson::Obj(ms) => selinux_fold(ms, selinux_init()),
            _ => Err(SchemaFault::Json(JsonFault::WrongType)),
        }
    }

    #[verifier::loop_isolation(false)]
    fn from_json(v: &JsonValue) -> (r: Result<SELinuxOptions, SchemaFault>) {
        let members = match v {
            JsonValue::Obj(ms) => ms,
            _ => { return Err(SchemaFault::Json(JsonFault::WrongType)) },
        };
        let ghost gms = view_json_members(members@);
        proof {
            lemma_view_json_members(members@);
            assert(gms.skip(0) =~= gms);
        }
        let mut acc = SELinuxOptions { level: None, role: None, type_: None, user: None };
        let n = members.len();
        let mut idx: usize = 0;
        while idx < n
            invariant
                n == members@.len(),
                gms == view_json_members(members@),
                gms.len() == n,
                forall|t: int|
                    0 <= t < n ==> gms[t] == (members@[t].0@, view_json(members@[t].1)),
                0 <= idx <= n,
                selinux_fold(gms, selinux_init()) == selinux_fold(gms.skip(idx as int), acc@),
            decreases n - idx,
        {
            let ghost tail = gms.skip(idx as int);
            proof {
                assert(tail[0] == gms[idx as int]);
                assert(tail.drop_first() =~= gms.skip(idx as int + 1));
            }
            let key = &members[idx].0;
            let val = &members[idx].1;
            if bytes_eq(key.as_slice(), "level".as_bytes()) {
                match conv_opt_string(val) {
                    Ok(x) => acc.level = x,
                    Err(f) => { return Err(f) },
                }
            } else if bytes_eq(key.as_slice(), "role".as_bytes()) {
                match conv_opt_string(val) {
                    Ok(x) => acc.role = x,
                    Err(f) => { return Err(f) },
                }
            } else if bytes_eq(key.as_slice(), "type".as_bytes()) {
                match conv_opt_string(val) {
                    Ok(x) => acc.type_ = x,
                    Err(f) => { return Err(f) },
                }
            } else if bytes_eq(key.as_slice(), "user".as_bytes()) {
                match conv_opt_string(val) {
                    Ok(x) => acc.user = x,
                    Err(f) => { return Err(f) },
                }
            }
            idx += 1;
        }
        proof {
            assert(gms.skip(n as int) =~= Seq::<(Seq<u8>, SpecJson)>::empty());
        }
        Ok(acc)
    }
}

/// The wire form of an optional text field: nothing when absent, one member
/// holding the string otherwise.
pub open spec fn opt_string_member(key: Seq<u8>, m: Option<Seq<char>>) -> Seq<
    (Seq<u8>, SpecJson),
> {
    match m {
        Some(x) => seq![(key, SpecJson::Str(encode_utf8(x)))],
        None => Seq::empty(),
    }
}

impl ToJson for SELinuxOptions {
    open spec fn spec_to_json(m: SpecSELinuxOptions) -> SpecJson {
        SpecJson::Obj(
            opt_string_member(key_bytes("level"), m.level) + opt_string_member(
                key_bytes("role"),
                m.role,
            ) + opt_string_member(key_bytes("type"), m.type_) + opt_string_member(
                key_bytes("user"),
                m.user,
            ),
        )
    }

    fn to_json(&self) -> (r: JsonValue) {
        let ghost m = self@;
        let mut ms: Vec<(Vec<u8>, JsonValue)> = Vec::new();
        proof {
            assert(view_json_members(ms@) =~= Seq::<(Seq<u8>, SpecJson)>::empty());
        }
        if let Some(x) = &self.level {
            let ghost before = ms@;
            ms.push(("level".as_bytes_vec(), JsonValue::Str(x.as_str().as_bytes_vec())));
            proof {
                lemma_view_json_members_snoc(before, ms@.last());
            }
        }
        proof {
            assert(view_json_members(ms@) =~= opt_string_member(key_bytes("level"), m.level));
        }
        if let Some(x) = &self.role {
            let ghost before = ms@;
            ms.push(("role".as_bytes_vec(), JsonValue::Str(x.as_str().as_bytes_vec())));
            proof {
                lemma_view_json_members_snoc(before, ms@.last());
            }
        }
        proof {
            assert(view_json_members(ms@) =~= opt_string_member(key_bytes("level"), m.level)
                + opt_string_member(key_bytes("role"), m.role));
        }
        if let Some(x) = &self.type_ {
            let ghost before = ms@;
            ms.push(("type".as_bytes_vec(), JsonValue::Str(x.as_str().as_bytes_vec())));
            proof {
                lemma_view_json_members_snoc(before, ms@.last());
            }
        }
        proof {
            assert(view_json_members(ms@) =~= opt_string_member(key_bytes("level"), m.level)
                + opt_string_member(key_bytes("role"), m.role) + opt_string_member(
                key_bytes("type"),
                m.type_,
            ));
        }
        if let Some(x) = &self.user {
            let ghost before = ms@;
            ms.push(("user".as_bytes_vec(), JsonValue::Str(x.as_str().as_bytes_vec())));
            proof {
                lemma_view_json_members_snoc(before, ms@.last());
            }
        }
        proof {
            assert(view_json_members(ms@) =~= opt_string_member(key_bytes("level"), m.level)
                + opt_string_member(key_bytes("role"), m.role) + opt_string_member(
                key_bytes("type"),
                m.type_,
            ) + opt_string_member(key_bytes("user"), m.user));
        }
        JsonValue::Obj(ms)
    }
}

/// Sysctl defines a kernel parameter to be set: a name and a value, both
/// mandatory.
#[derive(Clone, Debug, PartialEq)]
pub struct Sysctl {
    /// Name of a property to set.
    pub name: String,
    /// Value of a property to set.
    pub value: String,
}

/// The model of a [`Sysctl`].
pub struct SpecSysctl {
    /// The property name.
    pub name: Seq<char>,
    /// The property value.
    pub value: Seq<char>,
}

impl View for Sysctl {
    type V = SpecSysctl;

    open spec fn view(&self) -> SpecSysctl {
        SpecSysctl { name: self.name@, value: self.value@ }
    }
}

impl DeepView for Sysctl {
    type V = SpecSysctl;

    open spec fn deep_view(&self) -> SpecSysctl {
        self.view()
    }
}

/// The fields of a [`Sysctl`] as they accumulate while its object is read.
pub struct SpecSysctlAcc {
    /// The property name, once seen.
    pub name: Option<Seq<char>>,
    /// The property value, once seen.
    pub value: Option<Seq<char>>,
}

/// One member applied to the accumulating [`Sysctl`] fields.
pub open spec fn sysctl_step(acc: SpecSysctlAcc, key: Seq<u8>, v: SpecJson) -> Result<
    SpecSysctlAcc,
    SchemaFault,
> {
    if key == key_bytes("name") {
        match spec_string(v) {
            Ok(x) => Ok(SpecSysctlAcc { name: Some(x), ..acc }),
            Err(f) => Err(f),
        }
    } else if key == key_bytes("value") {
        match spec_string(v) {
            Ok(x) => Ok(SpecSysctlAcc { value: Some(x), ..acc }),
            Err(f) => Err(f),
        }
    } else {
        Ok(acc)
    }
}

/// The members of an object applied in order to the accumulating fields.
pub open spec fn sysctl_fold(ms: Seq<(Seq<u8>, SpecJson)>, acc: SpecSysctlAcc) -> Result<
    SpecSysctlAcc,
    SchemaFault,
>
    decreases ms.len(),
{
    if ms.len() == 0 {
        Ok(acc)
    } else {
        match sysctl_step(acc, ms[0].0, ms[0].1) {
            Ok(a2) => sysctl_fold(ms.drop_first(), a2),
            Err(f) => Err(f),
        }
    }
}

/// Both fields of a [`Sysctl`] are mandatory.
pub open spec fn sysctl_finish(acc: SpecSysctlAcc) -> Result<SpecSysctl, SchemaFault> {
    match (acc.name, acc.value) {
        (Some(n), Some(w)) => Ok(SpecSysctl { name: n, value: w }),
        _ => Err(SchemaFault::Json(JsonFault::MissingField)),
    }
}

impl FromJson for Sysctl {
    open spec fn spec_from_json(v: SpecJson) -> Result<SpecSysctl, SchemaFault> {
        match v {
            SpecJson::Obj(ms) => match sysctl_fold(
                ms,
                SpecSysctlAcc { name: None, value: None },
            ) {
                Ok(acc) => sysctl_finish(acc),
                Err(f) => Err(f),
            },
            _ => Err(SchemaFault::Json(JsonFault::WrongType)),
        }
    }

    #[verifier::loop_isolation(false)]
    fn from_json(v: &JsonValue) -> (r: Result<Sysctl, SchemaFault>) {
        let members = match v {
            JsonValue::Obj(ms) => ms,
            _ => { return Err(SchemaFault::Json(JsonFault::WrongType)) },
        };
        let ghost gms = view_json_members(members@);
        proof {
            lemma_view_json_members(members@);
            assert(gms.skip(0) =~= gms);
        }
        let mut name_acc: Option<String> = None;
        let mut value_acc: Option<String> = None;
        let n = members.len();
        let mut idx: usize = 0;
        while idx < n
            invariant
                n == members@.len(),
                gms == view_json_members(members@),
                gms.len() == n,
                forall|t: int|
                    0 <= t < n ==> gms[t] == (members@[t].0@, view_json(members@[t].1)),
                0 <= idx <= n,
                sysctl_fold(gms, SpecSysctlAcc { name: None, value: None }) == sysctl_fold(
                    gms.skip(idx as int),
                    SpecSysctlAcc {
                        name: view_opt_string(name_acc),
                        value: view_opt_string(value_acc),
                    },
                ),
            decreases n - idx,
        {
            let ghost tail = gms.skip(idx as int);
            proof {
                assert(tail[0] == gms[idx as int]);
                assert(tail.drop_first() =~= gms.skip(idx as int + 1));
            }
            let key = &members[idx].0;
            let val = &members[idx].1;
            if bytes_eq(key.as_slice(), "name".as_bytes()) {
                match conv_string(val) {
                    Ok(x) => name_acc = Some(x),
                    Err(f) => { return Err(f) },
                }
            } else if bytes_eq(key.as_slice(), "value".as_bytes()) {
                match conv_string(val) {
                    Ok(x) => value_acc = Some(x),
                    Err(f) => { return Err(f) },
                }
            }
            idx += 1;
        }
        proof {
            assert(gms.skip(n as int) =~= Seq::<(Seq<u8>, SpecJson)>::empty());
        }
        match (name_acc, value_acc) {
            (Some(nm), Some(vl)) => Ok(Sysctl { name: nm, value: vl }),
            _ => Err(SchemaFault::Json(JsonFault::MissingField)),
        }
    }
}

impl ToJson for Sysctl {
    open spec fn spec_to_json(m: SpecSysctl) -> SpecJson {
        SpecJson::Obj(
            seq![
                (key_bytes("name"), SpecJson::Str(encode_utf8(m.name))),
                (key_bytes("value"), SpecJson::Str(encode_utf8(m.value))),
            ],
        )
    }

    fn to_json(&self) -> (r: JsonValue) {
        let ghost m = self@;
        let mut ms: Vec<(Vec<u8>, JsonValue)> = Vec::new();
        proof {
            assert(view_json_members(ms@) =~= Seq::<(Seq<u8>, SpecJson)>::empty());
        }
        let ghost b0 = ms@;
        ms.push(("name".as_bytes_vec(), JsonValue::Str(self.name.as_str().as_bytes_vec())));
        proof {
            lemma_view_json_members_snoc(b0, ms@.last());
        }
        let ghost b1 = ms@;
        ms.push(("value".as_bytes_vec(), JsonValue::Str(self.value.as_str().as_bytes_vec())));
        proof {
            lemma_view_json_members_snoc(b1, ms@.last());
            assert(view_json_members(ms@) =~= seq![
                (key_bytes("name"), SpecJson::Str(encode_utf8(m.name))),
                (key_bytes("value"), SpecJson::Str(encode_utf8(m.value))),
            ]);
        }
        JsonValue::Obj(ms)
    }
}

/// The elements of an array of [`Sysctl`] objects.
pub open spec fn spec_sysctl_items(items: Seq<SpecJson>) -> Result<Seq<SpecSysctl>, SchemaFault>
    decreases items.len(),
{
    if items.len() == 0 {
        Ok(Seq::empty())
    } else {
        match Sysctl::spec_from_json(items[0]) {
            Ok(m) => match spec_sysctl_items(items.drop_first()) {
                Ok(rest) => Ok(seq![m] + rest),
                Err(f) => Err(f),
            },
            Err(f) => Err(f),
        }
    }
}

/// Reads the elements of an array of [`Sysctl`] objects, from `idx` on.
fn conv_sysctl_items(items: &Vec<JsonValue>, idx: usize) -> (r: Result<Vec<Sysctl>, SchemaFault>)
    requires
        idx <= items@.len(),
    ensures
        ({
            let m = spec_sysctl_items(view_json_seq(items@).skip(idx as int));
            match m {
                Ok(xs) => match r {
                    Ok(out) => out.deep_view() == xs,
                    Err(e) => false,
                },
                Err(f) => r == Err::<Vec<Sysctl>, SchemaFault>(f),
            }
        }),
    decreases items@.len() - idx,
{
    proof {
        lemma_view_json_seq(items@);
    }
    if idx == items.len() {
        let out: Vec<Sysctl> = Vec::new();
        assert(out.deep_view() =~= Seq::<SpecSysctl>::empty());
        return Ok(out);
    }
    let ghost tail = view_json_seq(items@).skip(idx as int);
    proof {
        assert(tail[0] == view_json(items@[idx as int]));
        assert(tail.drop_first() =~= view_json_seq(items@).skip(idx as int + 1));
    }
    match Sysctl::from_json(&items[idx]) {
        Ok(s) => {
            let ghost gs = s@;
            match conv_sysctl_items(items, idx + 1) {
                Ok(mut rest) => {
                    let ghost restview = rest.deep_view();
                    rest.insert(0, s);
                    assert(rest.deep_view() =~= seq![gs] + restview);
                    Ok(rest)
                },
                Err(f) => Err(f),
            }
        },
        Err(f) => Err(f),
    }
}

/// An optional array-of-sysctls field: `null` stands for absent.
pub open spec fn spec_opt_sysctls(v: SpecJson) -> Result<Option<Seq<SpecSysctl>>, SchemaFault> {
    match v {
        SpecJson::Null => Ok(None),
        SpecJson::Arr(items) => match spec_sysctl_items(items) {
            Ok(xs) => Ok(Some(xs)),
            Err(f) => Err(f),
        },
        _ => Err(SchemaFault::Json(JsonFault::WrongType)),
    }
}

/// An optional nested [`SELinuxOptions`] field: `null` stands for absent.
pub open spec fn spec_opt_selinux(v: SpecJson) -> Result<Option<SpecSELinuxOptions>, SchemaFault> {
    match v {
        SpecJson::Null => Ok(None),
        _ => match SELinuxOptions::spec_from_json(v) {
            Ok(m) => Ok(Some(m)),
            Err(f) => Err(f),
        },
    }
}

/// PodSecurityContext holds pod-level security attributes and common
/// container settings.  Some fields are also present in the per-container
/// security context, whose values take precedence.
#[derive(Clone, Debug, PartialEq)]
pub struct PodSecurityContext {
    /// A special supplemental group that applies to all containers in a
    /// pod.  If unset, the ownership and permissions of volumes are not
    /// modified.
    pub fs_group: Option<i64>,
    /// The GID to run the entrypoint of the container process.  Uses
    /// runtime default if unset.
    pub run_as_group: Option<i64>,
    /// Indicates that the container must run as a non-root user.
    pub run_as_non_root: Option<bool>,
    /// The UID to run the entrypoint of the container process.
    pub run_as_user: Option<i64>,
    /// The SELinux context to be applied to all containers.
    pub se_linux_options: Option<SELinuxOptions>,
    /// A list of groups applied to the first process run in each container.
    pub supplemental_groups: Option<Vec<i64>>,
    /// Sysctls hold a list of namespaced sysctls used for the pod.
    pub sysctls: Option<Vec<Sysctl>>,
}

/// The model of a [`PodSecurityContext`].
pub struct SpecPodSecurityContext {
    /// The supplemental group applied to all containers.
    pub fs_group: Option<i64>,
    /// The GID of the entrypoint.
    pub run_as_group: Option<i64>,
    /// Whether the container must run as a non-root user.
    pub run_as_non_root: Option<bool>,
    /// The UID of the entrypoint.
    pub run_as_user: Option<i64>,
    /// The SELinux context.
    pub se_linux_options: Option<SpecSELinuxOptions>,
    /// The supplemental groups.
    pub supplemental_groups: Option<Seq<i64>>,
    /// The namespaced sysctls.
    pub sysctls: Option<Seq<SpecSysctl>>,
}

impl View for PodSecurityContext {
    type V = SpecPodSecurityContext;

    open spec fn view(&self) -> SpecPodSecurityContext {
        SpecPodSecurityContext {
            fs_group: self.fs_group,
            run_as_group: self.run_as_group,
            run_as_non_root: self.run_as_non_root,
            run_as_user: self.run_as_user,
            se_linux_options: self.se_linux_options.deep_view(),
            supplemental_groups: view_opt_i64_seq(self.supplemental_groups),
            sysctls: match self.sysctls {
                Some(xs) => Some(xs.deep_view()),
                None => None,
            },
        }
    }
}

/// Whether `k` is one of the keys [`PodSecurityContext`] reads.
pub open spec fn psc_known_key(k: Seq<u8>) -> bool {
    k == key_bytes("fsGroup") || k == key_bytes("runAsGroup") || k == key_bytes("runAsNonRoot")
        || k == key_bytes("runAsUser") || k == key_bytes("seLinuxOptions") || k == key_bytes(
        "supplementalGroups",
    ) || k == key_bytes("sysctls")
}

/// One member applied to the accumulating [`PodSecurityContext`] model:
/// a known key updates its field, an unknown key is ignored.
pub open spec fn psc_step(
    acc: SpecPodSecurityContext,
    key: Seq<u8>,
    v: SpecJson,
) -> Result<SpecPodSecurityContext, SchemaFault> {
    if key == key_bytes("fsGroup") {
        match spec_opt_i64(v) {
            Ok(x) => Ok(SpecPodSecurityContext { fs_group: x, ..acc }),
            Err(f) => Err(f),
        }
    } else if key == key_bytes("runAsGroup") {
        match spec_opt_i64(v) {
            Ok(x) => Ok(SpecPodSecurityContext { run_as_group: x, ..acc }),
            Err(f) => Err(f),
        }
    } else if key == key_bytes("runAsNonRoot") {
        match spec_opt_bool(v) {
            Ok(x) => Ok(SpecPodSecurityContext { run_as_non_root: x, ..acc }),
            Err(f) => Err(f),
        }
    } else if key == key_bytes("runAsUser") {
        match spec_opt_i64(v) {
            Ok(x) => Ok(SpecPodSecurityContext { run_as_user: x, ..acc }),
            Err(f) => Err(f),
        }
    } else if key == key_bytes("seLinuxOptions") {
        match spec_opt_selinux(v) {
            Ok(x) => Ok(SpecPodSecurityContext { se_linux_options: x, ..acc }),
            Err(f) => Err(f),
        }
    } else if key == key_bytes("supplementalGroups") {
        match spec_opt_i64_seq(v) {
            Ok(x) => Ok(SpecPodSecurityContext { supplemental_groups: x, ..acc }),
            Err(f) => Err(f),
        }
    } else if key == key_bytes("sysctls") {
        match spec_opt_sysctls(v) {
            Ok(x) => Ok(SpecPodSecurityContext { sysctls: x, ..acc }),
            Err(f) => Err(f),
        }
    } else {
        Ok(acc)
    }
}

/// The members of an object applied in order to the accumulating model.
pub open spec fn psc_fold(
    ms: Seq<(Seq<u8>, SpecJson)>,
    acc: SpecPodSecurityContext,
) -> Result<SpecPodSecurityContext, SchemaFault>
    decreases ms.len(),
{
    if ms.len() == 0 {
        Ok(acc)
    } else {
        match psc_step(acc, ms[0].0, ms[0].1) {
            Ok(a2) => psc_fold(ms.drop_first(), a2),
            Err(f) => Err(f),
        }
    }
}

/// The model with every field absent.
pub open spec fn psc_init() -> SpecPodSecurityContext {
    SpecPodSecurityContext {
        fs_group: None,
        run_as_group: None,
        run_as_non_root: None,
        run_as_user: None,
        se_linux_options: None,
        supplemental_groups: None,
        sysctls: None,
    }
}

impl FromJson for PodSecurityContext {
    open spec fn spec_from_json(v: SpecJson) -> Result<SpecPodSecurityContext, SchemaFault> {
        match v {
            SpecJson::Obj(ms) => psc_fold(ms, psc_init()),
            _ => Err(SchemaFault::Json(JsonFault::WrongType)),
        }
    }

    #[verifier::loop_isolation(false)]
    #[verifier::rlimit(100)]
    #[verifier::spinoff_prover]
    fn from_json(v: &JsonValue) -> (r: Result<PodSecurityContext, SchemaFault>) {
        let members = match v {
            JsonValue::Obj(ms) => ms,
            _ => { return Err(SchemaFault::Json(JsonFault::WrongType)) },
        };
        let ghost gms = view_json_members(members@);
        proof {
            lemma_view_json_members(members@);
            assert(gms.skip(0) =~= gms);
        }
        let mut acc = PodSecurityContext {
            fs_group: None,
            run_as_group: None,
            run_as_non_root: None,
            run_as_user: None,
            se_linux_options: None,
            supplemental_groups: None,
            sysctls: None,
        };
        let n = members.len();
        let mut idx: usize = 0;
        while idx < n
            invariant
                n == members@.len(),
                gms == view_json_members(members@),
                gms.len() == n,
                forall|t: int|
                    0 <= t < n ==> gms[t] == (members@[t].0@, view_json(members@[t].1)),
                0 <= idx <= n,
                psc_fold(gms, psc_init()) == psc_fold(gms.skip(idx as int), acc@),
            decreases n - idx,
        {
            let ghost tail = gms.skip(idx as int);
            proof {
                assert(tail[0] == gms[idx as int]);
                assert(tail.drop_first() =~= gms.skip(idx as int + 1));
            }
            let key = &members[idx].0;
            let val = &members[idx].1;
            if bytes_eq(key.as_slice(), "fsGroup".as_bytes()) {
                match conv_opt_i64(val) {
                    Ok(x) => acc.fs_group = x,
                    Err(f) => { return Err(f) },
                }
            } else if bytes_eq(key.as_slice(), "runAsGroup".as_bytes()) {
                match conv_opt_i64(val) {
                    Ok(x) => acc.run_as_group = x,
                    Err(f) => { return Err(f) },
                }
            } else if bytes_eq(key.as_slice(), "runAsNonRoot".as_bytes()) {
                match conv_opt_bool(val) {
                    Ok(x) => acc.run_as_non_root = x,
                    Err(f) => { return Err(f) },
                }
            } else if bytes_eq(key.as_slice(), "runAsUser".as_bytes()) {
                match conv_opt_i64(val) {
                    Ok(x) => acc.run_as_user = x,
                    Err(f) => { return Err(f) },
                }
            } else if bytes_eq(key.as_slice(), "seLinuxOptions".as_bytes()) {
                match val {
                    JsonValue::Null => acc.se_linux_options = None,
                    _ => match SELinuxOptions::from_json(val) {
                        Ok(x) => acc.se_linux_options = Some(x),
                        Err(f) => { return Err(f) },
                    },
                }
            } else if bytes_eq(key.as_slice(), "supplementalGroups".as_bytes()) {
                match conv_opt_i64_seq(val) {
                    Ok(x) => acc.supplemental_groups = x,
                    Err(f) => { return Err(f) },
                }
            } else if bytes_eq(key.as_slice(), "sysctls".as_bytes()) {
                match val {
                    JsonValue::Null => acc.sysctls = None,
                    JsonValue::Arr(items) => {
                        proof {
                            assert(view_json_seq(items@).skip(0) =~= view_json_seq(items@));
                        }
                        match conv_sysctl_items(items, 0) {
                            Ok(x) => acc.sysctls = Some(x),
                            Err(f) => { return Err(f) },
                        }
                    },
                    _ => { return Err(SchemaFault::Json(JsonFault::WrongType)) },
                }
            }
            idx += 1;
        }
        proof {
            assert(gms.skip(n as int) =~= Seq::<(Seq<u8>, SpecJson)>::empty());
        }
        Ok(acc)
    }
}

/// A member list extended by an unrecognized key folds to the same model:
/// unknown fields are ignored, which keeps older clients compatible with
/// newer server schemas.
proof fn lemma_psc_fold_unknown(
    ms: Seq<(Seq<u8>, SpecJson)>,
    acc: SpecPodSecurityContext,
    k: Seq<u8>,
    v: SpecJson,
)
    requires
        !psc_known_key(k),
    ensures
        psc_fold(ms.push((k, v)), acc) == psc_fold(ms, acc),
    decreases ms.len(),
{
    if ms.len() == 0 {
        assert(ms.push((k, v)).drop_first() =~= Seq::<(Seq<u8>, SpecJson)>::empty());
        assert(ms.push((k, v))[0] == (k, v));
        assert(psc_step(acc, k, v) == Ok::<SpecPodSecurityContext, SchemaFault>(acc));
        assert(psc_fold(Seq::<(Seq<u8>, SpecJson)>::empty(), acc) == Ok::<
            SpecPodSecurityContext,
            SchemaFault,
        >(acc));
    } else {
        assert(ms.push((k, v))[0] == ms[0]);
        assert(ms.push((k, v)).drop_first() =~= ms.drop_first().push((k, v)));
        match psc_step(acc, ms[0].0, ms[0].1) {
            Ok(a2) => {
                lemma_psc_fold_unknown(ms.drop_first(), a2, k, v);
                assert(psc_fold(ms, acc) == psc_fold(ms.drop_first(), a2));
                assert(psc_fold(ms.push((k, v)), acc) == psc_fold(
                    ms.drop_first().push((k, v)),
                    a2,
                ));
            },
            Err(f) => {},
        }
    }
}

/// Unknown-field forward compatibility: a JSON object with one extra,
/// unrecognized member deserializes to exactly what the object without it
/// deserializes to.
pub proof fn lemma_psc_unknown_field_ignored(
    ms: Seq<(Seq<u8>, SpecJson)>,
    k: Seq<u8>,
    v: SpecJson,
)
    requires
        !psc_known_key(k),
    ensures
        PodSecurityContext::spec_from_json(SpecJson::Obj(ms.push((k, v))))
            == PodSecurityContext::spec_from_json(SpecJson::Obj(ms)),
{
    lemma_psc_fold_unknown(ms, psc_init(), k, v);
}

/// The wire form of an optional integer field.
pub open spec fn opt_i64_member(key: Seq<u8>, m: Option<i64>) -> Seq<(Seq<u8>, SpecJson)> {
    match m {
        Some(x) => seq![(key, SpecJson::Int(x as int))],
        None => Seq::empty(),
    }
}

/// The wire form of an optional boolean field.
pub open spec fn opt_bool_member(key: Seq<u8>, m: Option<bool>) -> Seq<(Seq<u8>, SpecJson)> {
    match m {
        Some(x) => seq![(key, SpecJson::Bool(x))],
        None => Seq::empty(),
    }
}

/// The wire form of a list of integers.
pub open spec fn i64s_json(xs: Seq<i64>) -> Seq<SpecJson>
    decreases xs.len(),
{
    if xs.len() == 0 {
        Seq::empty()
    } else {
        seq![SpecJson::Int(xs[0] as int)] + i64s_json(xs.drop_first())
    }
}

/// The wire form of a list of sysctls.
pub open spec fn sysctls_json(xs: Seq<SpecSysctl>) -> Seq<SpecJson>
    decreases xs.len(),
{
    if xs.len() == 0 {
        Seq::empty()
    } else {
        seq![Sysctl::spec_to_json(xs[0])] + sysctls_json(xs.drop_first())
    }
}

/// Writes a list of integers as JSON values, from `idx` on.
fn i64s_to_values(xs: &Vec<i64>, idx: usize) -> (r: Vec<JsonValue>)
    requires
        idx <= xs@.len(),
    ensures
        view_json_seq(r@) == i64s_json(xs@.skip(idx as int)),
    decreases xs@.len() - idx,
{
    if idx == xs.len() {
        let out: Vec<JsonValue> = Vec::new();
        assert(view_json_seq(out@) =~= i64s_json(xs@.skip(idx as int)));
        return out;
    }
    let ghost tail = xs@.skip(idx as int);
    proof {
        assert(tail[0] == xs@[idx as int]);
        assert(tail.drop_first() =~= xs@.skip(idx as int + 1));
    }
    let head = JsonValue::Int(xs[idx]);
    let ghost ghead = view_json(head);
    let mut rest = i64s_to_values(xs, idx + 1);
    let ghost restview = rest@;
    rest.insert(0, head);
    proof {
        assert(rest@ =~= seq![rest@[0]] + restview);
        crate::json::lemma_view_json_seq_cons(rest@[0], restview);
        assert(view_json_seq(rest@) =~= i64s_json(tail));
    }
    rest
}

/// Writes a list of sysctls as JSON values, from `idx` on.
fn sysctls_to_values(xs: &Vec<Sysctl>, idx: usize) -> (r: Vec<JsonValue>)
    requires
        idx <= xs@.len(),
    ensures
        view_json_seq(r@) == sysctls_json(xs.deep_view().skip(idx as int)),
    decreases xs@.len() - idx,
{
    if idx == xs.len() {
        let out: Vec<JsonValue> = Vec::new();
        assert(view_json_seq(out@) =~= sysctls_json(xs.deep_view().skip(idx as int)));
        return out;
    }
    let ghost tail = xs.deep_view().skip(idx as int);
    proof {
        assert(tail[0] == xs.deep_view()[idx as int]);
        assert(tail.drop_first() =~= xs.deep_view().skip(idx as int + 1));
    }
    let head = xs[idx].to_json();
    let ghost ghead = view_json(head);
    let mut rest = sysctls_to_values(xs, idx + 1);
    let ghost restview = rest@;
    rest.insert(0, head);
    proof {
        assert(rest@ =~= seq![rest@[0]] + restview);
        crate::json::lemma_view_json_seq_cons(rest@[0], restview);
        assert(view_json_seq(rest@) =~= sysctls_json(tail));
    }
    rest
}

impl ToJson for PodSecurityContext {
    open spec fn spec_to_json(m: SpecPodSecurityContext) -> SpecJson {
        SpecJson::Obj(
            opt_i64_member(key_bytes("fsGroup"), m.fs_group) + opt_i64_member(
                key_bytes("runAsGroup"),
                m.run_as_group,
            ) + opt_bool_member(key_bytes("runAsNonRoot"), m.run_as_non_root) + opt_i64_member(
                key_bytes("runAsUser"),
                m.run_as_user,
            ) + (match m.se_linux_options {
                Some(x) => seq![(key_bytes("seLinuxOptions"), SELinuxOptions::spec_to_json(x))],
                None => Seq::empty(),
            }) + (match m.supplemental_groups {
                Some(xs) => seq![
                    (key_bytes("supplementalGroups"), SpecJson::Arr(i64s_json(xs))),
                ],
                None => Seq::empty(),
            }) + (match m.sysctls {
                Some(xs) => seq![(key_bytes("sysctls"), SpecJson::Arr(sysctls_json(xs)))],
                None => Seq::empty(),
            }),
        )
    }

    #[verifier::rlimit(100)]
    #[verifier::spinoff_prover]
    fn to_json(&self) -> (r: JsonValue) {
        let ghost m = self@;
        let mut ms: Vec<(Vec<u8>, JsonValue)> = Vec::new();
        proof {
            assert(view_json_members(ms@) =~= Seq::<(Seq<u8>, SpecJson)>::empty());
        }
        let ghost seg0 = opt_i64_member(key_bytes("fsGroup"), m.fs_group);
        if let Some(x) = self.fs_group {
            let ghost before = ms@;
            ms.push(("fsGroup".as_bytes_vec(), JsonValue::Int(x)));
            proof {
                lemma_view_json_members_snoc(before, ms@.last());
            }
        }
        proof {
            assert(view_json_members(ms@) =~= seg0);
        }
        let ghost seg1 = seg0 + opt_i64_member(key_bytes("runAsGroup"), m.run_as_group);
        if let Some(x) = self.run_as_group {
            let ghost before = ms@;
            ms.push(("runAsGroup".as_bytes_vec(), JsonValue::Int(x)));
            proof {
                lemma_view_json_members_snoc(before, ms@.last());
            }
        }
        proof {
            assert(view_json_members(ms@) =~= seg1);
        }
        let ghost seg2 = seg1 + opt_bool_member(key_bytes("runAsNonRoot"), m.run_as_non_root);
        if let Some(x) = self.run_as_non_root {
            let ghost before = ms@;
            ms.push(("runAsNonRoot".as_bytes_vec(), JsonValue::Bool(x)));
            proof {
                lemma_view_json_members_snoc(before, ms@.last());
            }
        }
        proof {
            assert(view_json_members(ms@) =~= seg2);
        }
        let ghost seg3 = seg2 + opt_i64_member(key_bytes("runAsUser"), m.run_as_user);
        if let Some(x) = self.run_as_user {
            let ghost before = ms@;
            ms.push(("runAsUser".as_bytes_vec(), JsonValue::Int(x)));
            proof {
                lemma_view_json_members_snoc(before, ms@.last());
            }
        }
        proof {
            assert(view_json_members(ms@) =~= seg3);
        }
        let ghost seg4 = seg3 + (match m.se_linux_options {
            Some(x) => seq![(key_bytes("seLinuxOptions"), SELinuxOptions::spec_to_json(x))],
            None => Seq::<(Seq<u8>, SpecJson)>::empty(),
        });
        if let Some(x) = &self.se_linux_options {
            let ghost before = ms@;
            ms.push(("seLinuxOptions".as_bytes_vec(), x.to_json()));
            proof {
                lemma_view_json_members_snoc(before, ms@.last());
            }
        }
        proof {
            assert(view_json_members(ms@) =~= seg4);
        }
        let ghost seg5 = seg4 + (match m.supplemental_groups {
            Some(xs) => seq![(key_bytes("supplementalGroups"), SpecJson::Arr(i64s_json(xs)))],
            None => Seq::<(Seq<u8>, SpecJson)>::empty(),
        });
        if let Some(xs) = &self.supplemental_groups {
            let ghost before = ms@;
            proof {
                assert(xs@.skip(0) =~= xs@);
            }
            let values = i64s_to_values(xs, 0);
            ms.push(("supplementalGroups".as_bytes_vec(), JsonValue::Arr(values)));
            proof {
                lemma_view_json_members_snoc(before, ms@.last());
            }
        }
        proof {
            assert(view_json_members(ms@) =~= seg5);
        }
        let ghost seg6 = seg5 + (match m.sysctls {
            Some(xs) => seq![(key_bytes("sysctls"), SpecJson::Arr(sysctls_json(xs)))],
            None => Seq::<(Seq<u8>, SpecJson)>::empty(),
        });
        if let Some(xs) = &self.sysctls {
            let ghost before = ms@;
            proof {
                assert(xs.deep_view().skip(0) =~= xs.deep_view());
            }
            let values = sysctls_to_values(xs, 0);
            ms.push(("sysctls".as_bytes_vec(), JsonValue::Arr(values)));
            proof {
                lemma_view_json_members_snoc(before, ms@.last());
            }
        }
        proof {
            assert(view_json_members(ms@) =~= seg6);
        }
        JsonValue::Obj(ms)
    }
}

} // verus!
