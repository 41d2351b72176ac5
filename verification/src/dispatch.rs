//! Status-code-driven dispatch to the expected payload shape.
//!
//! Every typed API operation expects one payload shape per status-code
//! range: a success code carries the operation's typed object, an error
//! code carries the generic error-detail object, and an unrecognized code
//! falls back to a generic JSON value rather than a hard error, so callers
//! can inspect unanticipated server responses.  The shape is selected by
//! the status code alone, before any structural parsing, so a body that
//! happens to satisfy several shapes can never be decoded as the wrong one.

use vstd::prelude::*;

use crate::error::JsonFault;
use crate::error::ResponseError;
use crate::json::parse_document;
use crate::json::spec_parse_document;
use crate::json::JsonValue;
use crate::json::ParseStop;
use crate::json::SpecJson;
use crate::json::SpecParsed;
use crate::meta::SpecStatus;
use crate::meta::Status;
use crate::response::Response;
use crate::response::SpecDecodeOutcome;
use crate::error::SchemaFault;
use crate::schema::FromJson;

verus! {

/// The payload shape a status code selects.
#[derive(Clone, Copy, Debug, PartialEq, Eq, Structural)]
pub enum ShapeKind {
    /// A success code: the operation's typed object.
    Typed,
    /// An error code: the generic error-detail object.
    ErrorDetail,
    /// Any other code: a generic JSON value.
    Unrecognized,
}

/// The shape selected by a status code: success codes carry the typed
/// object, client- and server-error codes carry the error detail, anything
/// else is unrecognized.
pub open spec fn spec_shape_of(status_code: u16) -> ShapeKind {
    if 200 <= status_code < 300 {
        ShapeKind::Typed
    } else if 400 <= status_code < 600 {
        ShapeKind::ErrorDetail
    } else {
        ShapeKind::Unrecognized
    }
}

/// Selects the payload shape for a status code.
pub fn shape_of(status_code: u16) -> (r: ShapeKind)
    ensures
        r == spec_shape_of(status_code),
{
    if 200 <= status_code && status_code < 300 {
        ShapeKind::Typed
    } else if 400 <= status_code && status_code < 600 {
        ShapeKind::ErrorDetail
    } else {
        ShapeKind::Unrecognized
    }
}

/// The decoded reply of a typed API operation: the typed object on a
/// success code, the error detail on an error code, or the raw document
/// (when there is one) on an unrecognized code.
#[derive(Debug)]
pub enum ObjectResponse<T> {
    /// The operation succeeded and the body is the operation's object.
    Success(T),
    /// The server reported a failure as an error-detail object.
    ErrorStatus(Status),
    /// The status code is not one the operation recognizes; the body, if
    /// any, is kept as a generic JSON value.
    Other(Option<JsonValue>),
}

/// The model of an [`ObjectResponse`].
pub enum SpecObjectResponse<M> {
    /// The model of the typed object.
    Success(M),
    /// The model of the error detail.
    ErrorStatus(SpecStatus),
    /// The model of the generic body, if any.
    Other(Option<SpecJson>),
}

impl<T: View> View for ObjectResponse<T> {
    type V = SpecObjectResponse<T::V>;

    open spec fn view(&self) -> SpecObjectResponse<T::V> {
        match self {
            ObjectResponse::Success(x) => SpecObjectResponse::Success(x.view()),
            ObjectResponse::ErrorStatus(s) => SpecObjectResponse::ErrorStatus(s.view()),
            ObjectResponse::Other(Some(v)) => SpecObjectResponse::Other(Some(v.view())),
            ObjectResponse::Other(None) => SpecObjectResponse::Other(None),
        }
    }
}

impl<T: FromJson> Response for ObjectResponse<T> {
    open spec fn spec_decode(status_code: u16, bytes: Seq<u8>) -> SpecDecodeOutcome<
        SpecObjectResponse<T::V>,
    > {
        match spec_shape_of(status_code) {
            ShapeKind::Typed => match spec_parse_document(bytes) {
                SpecParsed::Found(doc, n) => match T::spec_from_json(doc) {
                    Ok(m) => SpecDecodeOutcome::Success(SpecObjectResponse::Success(m), n),
                    Err(f) => SpecDecodeOutcome::Fail(f.spec_as_response_error()),
                },
                SpecParsed::Incomplete => SpecDecodeOutcome::NeedMore,
                SpecParsed::Bad => SpecDecodeOutcome::Fail(ResponseError::Json(JsonFault::Syntax)),
            },
            ShapeKind::ErrorDetail => match spec_parse_document(bytes) {
                SpecParsed::Found(doc, n) => match Status::spec_from_json(doc) {
                    Ok(m) => SpecDecodeOutcome::Success(SpecObjectResponse::ErrorStatus(m), n),
                    Err(f) => SpecDecodeOutcome::Fail(f.spec_as_response_error()),
                },
                SpecParsed::Incomplete => SpecDecodeOutcome::NeedMore,
                SpecParsed::Bad => SpecDecodeOutcome::Fail(ResponseError::Json(JsonFault::Syntax)),
            },
            ShapeKind::Unrecognized => if bytes.len() == 0 {
                SpecDecodeOutcome::Success(SpecObjectResponse::Other(None), 0)
            } else {
                match spec_parse_document(bytes) {
                    SpecParsed::Found(doc, n) => SpecDecodeOutcome::Success(
                        SpecObjectResponse::Other(Some(doc)),
                        n,
                    ),
                    SpecParsed::Incomplete => SpecDecodeOutcome::NeedMore,
                    SpecParsed::Bad => SpecDecodeOutcome::Fail(
                        ResponseError::Json(JsonFault::Syntax),
                    ),
                }
            },
        }
    }

    proof fn lemma_decode_wf(status_code: u16, bytes: Seq<u8>) {
    }

    fn try_from_parts(status_code: u16, buf: &[u8]) -> (r: Result<
        (Self, usize),
        ResponseError,
    >) {
        match shape_of(status_code) {
            ShapeKind::Typed => match parse_document(buf) {
                Ok(doc) => match T::from_json(&doc) {
                    Ok(v) => {
                        let n = buf.len();
                        Ok((ObjectResponse::Success(v), n))
                    },
                    Err(f) => Err(f.as_response_error()),
                },
                Err(ParseStop::Incomplete) => Err(ResponseError::NeedMoreData),
                Err(ParseStop::Bad) => Err(ResponseError::Json(JsonFault::Syntax)),
            },
            ShapeKind::ErrorDetail => match parse_document(buf) {
                Ok(doc) => match Status::from_json(&doc) {
                    Ok(v) => {
                        let n = buf.len();
                        Ok((ObjectResponse::ErrorStatus(v), n))
                    },
                    Err(f) => Err(f.as_response_error()),
                },
                Err(ParseStop::Incomplete) => Err(ResponseError::NeedMoreData),
                Err(ParseStop::Bad) => Err(ResponseError::Json(JsonFault::Syntax)),
            },
            ShapeKind::Unrecognized => {
                if buf.len() == 0 {
                    return Ok((ObjectResponse::Other(None), 0));
                }
                match parse_document(buf) {
                    Ok(doc) => {
                        let n = buf.len();
                        Ok((ObjectResponse::Other(Some(doc)), n))
                    },
                    Err(ParseStop::Incomplete) => Err(ResponseError::NeedMoreData),
                    Err(ParseStop::Bad) => Err(ResponseError::Json(JsonFault::Syntax)),
                }
            },
        }
    }
}

/// No data loss across partial reads: when a response body decodes to a
/// typed value on a recognized status code, every proper prefix of that
/// body either leaves the decoder asking for more data or already decodes
/// to the very same value.  Feeding the body to a buffer chunk by chunk,
/// parsing after each append, therefore converges on the same typed value
/// as feeding it at once, for any way of splitting it.
///
/// The typed shape must accept only JSON objects (as every schema-derived
/// type here does): a shape accepting a bare integer would not qualify,
/// because a digit run is only terminated by the byte after it.
pub proof fn lemma_no_data_loss<T: FromJson>(
    status_code: u16,
    body: Seq<u8>,
    j: int,
    m: SpecObjectResponse<T::V>,
    n: int,
)
    requires
        spec_shape_of(status_code) != ShapeKind::Unrecognized,
        forall|d: SpecJson| !(d is Obj) ==> (#[trigger] T::spec_from_json(d)) is Err,
        ObjectResponse::<T>::spec_decode(status_code, body) == SpecDecodeOutcome::Success(m, n),
        0 <= j < body.len(),
    ensures
        ObjectResponse::<T>::spec_decode(status_code, body.take(j)) == SpecDecodeOutcome::<
            SpecObjectResponse<T::V>,
        >::NeedMore || ObjectResponse::<T>::spec_decode(status_code, body.take(j))
            == SpecDecodeOutcome::Success(m, j),
{
    match spec_parse_document(body) {
        crate::json::SpecParsed::Found(doc, nn) => {
            match doc {
                SpecJson::Obj(ms) => {
                    let s = crate::json::spec_skip_ws(body, 0);
                    crate::json::lemma_skip_ws(body, 0);
                    match crate::json::spec_parse_value(body, s) {
                        crate::json::SpecParsed::Found(vv, e) => {
                            crate::json::lemma_value_obj_starts_with_brace(body, s, ms, e);
                        },
                        crate::json::SpecParsed::Incomplete => {
                            assert(false);
                        },
                        crate::json::SpecParsed::Bad => {
                            assert(false);
                        },
                    }
                    crate::json::lemma_parse_document_prefix(body, j, doc, nn);
                },
                _ => {
                    assert(false);
                },
            }
        },
        crate::json::SpecParsed::Incomplete => {
            assert(false);
        },
        crate::json::SpecParsed::Bad => {
            assert(false);
        },
    }
}

/// Status-code dispatch, success half: with a success-range status code and
/// a body that parses as a document the typed shape accepts, decode yields
/// the typed success variant and consumes the whole buffer.
pub proof fn lemma_status_dispatch_success<T: FromJson>(
    status_code: u16,
    bytes: Seq<u8>,
    doc: SpecJson,
    n: int,
    m: T::V,
)
    requires
        200 <= status_code < 300,
        spec_parse_document(bytes) == SpecParsed::Found(doc, n),
        T::spec_from_json(doc) == Ok::<T::V, SchemaFault>(m),
    ensures
        ObjectResponse::<T>::spec_decode(status_code, bytes) == SpecDecodeOutcome::Success(
            SpecObjectResponse::<T::V>::Success(m),
            n,
        ),
{
}

/// Status-code dispatch, error half: with an error-range status code and a
/// body that parses as a document the error-detail shape accepts, decode
/// yields the error-detail variant — never the typed success variant, even
/// when the body would satisfy the typed shape as well.
pub proof fn lemma_status_dispatch_error_detail<T: FromJson>(
    status_code: u16,
    bytes: Seq<u8>,
    doc: SpecJson,
    n: int,
    m: SpecStatus,
)
    requires
        400 <= status_code < 600,
        spec_parse_document(bytes) == SpecParsed::Found(doc, n),
        Status::spec_from_json(doc) == Ok::<SpecStatus, SchemaFault>(m),
    ensures
        ObjectResponse::<T>::spec_decode(status_code, bytes) == SpecDecodeOutcome::Success(
            SpecObjectResponse::<T::V>::ErrorStatus(m),
            n,
        ),
        !(ObjectResponse::<T>::spec_decode(status_code, bytes) matches SpecDecodeOutcome::Success(
            SpecObjectResponse::Success(x),
            k,
        )),
{
}

} // verus!
