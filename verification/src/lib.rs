//! Client-side core for a typed binding to a remote object-management API.
//!
//! The crate converts between raw HTTP response bytes and strongly typed
//! values: a streaming response buffer ([`ResponseBody`]) accumulates bytes
//! from a transport, and a typed decode attempt ([`Response`]) turns them
//! into a value exactly once enough data has arrived.  A byte-string codec
//! ([`ByteString`]) and a two-family error taxonomy ([`RequestError`],
//! [`ResponseError`]) support the decoder.

use vstd::prelude::*;

pub mod certificates;
pub mod codec;
pub mod core_v1;
pub mod dispatch;
pub mod error;
pub mod json;
pub mod meta;
pub mod response;
pub mod schema;

pub use codec::ByteString;
pub use error::RequestError;
pub use error::ResponseError;
pub use response::Response;
pub use response::ResponseBody;

pub use certificates::CertificateSigningRequestSpec;
pub use core_v1::PodSecurityContext;
pub use core_v1::SELinuxOptions;
pub use core_v1::Sysctl;
pub use dispatch::ObjectResponse;
pub use meta::Status;
pub use meta::TypeMeta;

verus! {

/// A trait applied to all resources exchanged with the remote API.
///
/// Each resource type carries a static identity: its group, version and
/// kind, together with the composite `apiVersion` string written on the
/// wire (`group/version`, or just `version` when the group is empty).
pub trait Resource: Sized {
    /// The group of the resource, or the empty sequence when it has none.
    spec fn spec_group() -> Seq<char>;

    /// The version of the resource.
    spec fn spec_version() -> Seq<char>;

    /// The kind of the resource.
    spec fn spec_kind() -> Seq<char>;

    /// The composite `apiVersion` string: `group/version`, or just the
    /// version for resources without a group.
    open spec fn spec_api_version() -> Seq<char> {
        if Self::spec_group().len() == 0 {
            Self::spec_version()
        } else {
            Self::spec_group() + "/"@ + Self::spec_version()
        }
    }

    /// The group of the resource, or the empty string if the resource
    /// doesn't have a group.
    fn group() -> (r: &'static str)
        ensures
            r@ == Self::spec_group(),
    ;

    /// The version of the resource.
    fn version() -> (r: &'static str)
        ensures
            r@ == Self::spec_version(),
    ;

    /// The kind of the resource.
    ///
    /// This is the string used in the `kind` field of the resource's
    /// serialized form.
    fn kind() -> (r: &'static str)
        ensures
            r@ == Self::spec_kind(),
    ;

    /// The API version of the resource.
    ///
    /// This is the string used in the `apiVersion` field of the resource's
    /// serialized form.
    fn api_version() -> (r: &'static str)
        ensures
            r@ == Self::spec_api_version(),
    ;
}

/// A trait applied to all resources that have metadata.
pub trait Metadata: Resource {
    /// The type of the metadata object.
    type Ty;

    /// The metadata of this resource value, as a specification-level value.
    spec fn spec_metadata(&self) -> Option<&<Self as Metadata>::Ty>;

    /// Gets the metadata of this resource value.
    fn metadata(&self) -> (r: Option<&<Self as Metadata>::Ty>)
        ensures
            r == self.spec_metadata(),
    ;
}

/// Extracts the API version of the given resource value.
///
/// This just forwards to the type's impl of [`Resource::api_version`] but is
/// useful when you already have a value and don't want to name its type.
pub fn api_version<T: Resource>(_v: &T) -> (r: &'static str)
    ensures
        r@ == T::spec_api_version(),
{
    T::api_version()
}

/// Extracts the group of the given resource value.
///
/// This just forwards to the type's impl of [`Resource::group`] but is
/// useful when you already have a value and don't want to name its type.
pub fn group<T: Resource>(_v: &T) -> (r: &'static str)
    ensures
        r@ == T::spec_group(),
{
    T::group()
}

/// Extracts the kind of the given resource value.
///
/// This just forwards to the type's impl of [`Resource::kind`] but is
/// useful when you already have a value and don't want to name its type.
pub fn kind<T: Resource>(_v: &T) -> (r: &'static str)
    ensures
        r@ == T::spec_kind(),
{
    T::kind()
}

/// Extracts the version of the given resource value.
///
/// This just forwards to the type's impl of [`Resource::version`] but is
/// useful when you already have a value and don't want to name its type.
pub fn version<T: Resource>(_v: &T) -> (r: &'static str)
    ensures
        r@ == T::spec_version(),
{
    T::version()
}

} // verus!
