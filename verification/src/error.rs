//! The two error families used by the rest of the crate.
//!
//! Errors that arise while building a request ([`RequestError`]) and errors
//! that arise while decoding a response ([`ResponseError`]) are kept as two
//! independent unions because they arise at different protocol stages.

use vstd::prelude::*;

verus! {

/// The structural cause carried by a decode failure.
///
/// Each variant names one way the payload bytes can fail schema-level
/// structural parsing once they have been read as a JSON document.
#[derive(Clone, Copy, Debug, PartialEq, Eq, Structural)]
pub enum JsonFault {
    /// The payload is not a syntactically well-formed JSON document.
    Syntax,
    /// A mandatory key is absent from the JSON object.
    MissingField,
    /// A key is present but its value has the wrong JSON shape.
    WrongType,
    /// A numeric value does not fit in the field's integer type.
    IntOutOfRange,
    /// A byte-string field's text is not valid standard base64.
    InvalidEncoding,
}

/// The type of errors from parsing an HTTP response as one of the API
/// functions' response types.
#[derive(Clone, Copy, Debug, PartialEq, Eq, Structural)]
pub enum ResponseError {
    /// More data is needed to complete deserialization.  This is a control
    /// signal, not a failure: the caller must read more bytes from the
    /// transport, append them, and try again.
    NeedMoreData,

    /// The response could not be deserialized as a JSON value of the
    /// expected shape: the response is malformed.
    Json(JsonFault),

    /// The response contains text that is not valid UTF-8.
    Utf8,
}

impl ResponseError {
    /// A short human-readable description of the error.
    pub fn message(&self) -> (r: &'static str)
        ensures
            *self is NeedMoreData ==> r@ == "need more response data"@,
            *self is Utf8 ==> r@ == "response data is not valid utf-8"@,
            *self == ResponseError::Json(JsonFault::Syntax) ==> r@
                == "response body is not well-formed json"@,
            *self == ResponseError::Json(JsonFault::MissingField) ==> r@
                == "response body is missing a required field"@,
            *self == ResponseError::Json(JsonFault::WrongType) ==> r@
                == "a field of the response body has the wrong type"@,
            *self == ResponseError::Json(JsonFault::IntOutOfRange) ==> r@
                == "an integer in the response body is out of range"@,
            *self == ResponseError::Json(JsonFault::InvalidEncoding) ==> r@
                == "a byte-string field is not valid base64"@,
    {
        match self {
            ResponseError::NeedMoreData => "need more response data",
            ResponseError::Json(fault) => match fault {
                JsonFault::Syntax => "response body is not well-formed json",
                JsonFault::MissingField => "response body is missing a required field",
                JsonFault::WrongType => "a field of the response body has the wrong type",
                JsonFault::IntOutOfRange => "an integer in the response body is out of range",
                JsonFault::InvalidEncoding => "a byte-string field is not valid base64",
            },
            ResponseError::Utf8 => "response data is not valid utf-8",
        }
    }
}

/// A schema-level decode failure: either a structural JSON fault or text
/// that is not valid UTF-8.  It is exactly a [`ResponseError`] without the
/// need-more-data control signal, which the schema layer can never produce:
/// it only ever sees a complete JSON document.
#[derive(Clone, Copy, Debug, PartialEq, Eq, Structural)]
pub enum SchemaFault {
    /// A structural fault in the JSON document.
    Json(JsonFault),
    /// A text field holds bytes that are not valid UTF-8.
    Utf8,
}

impl SchemaFault {
    /// The same fault as a response error.
    pub open spec fn spec_as_response_error(self) -> ResponseError {
        match self {
            SchemaFault::Json(f) => ResponseError::Json(f),
            SchemaFault::Utf8 => ResponseError::Utf8,
        }
    }

    /// Turns the fault into the response error it denotes.
    pub fn as_response_error(&self) -> (r: ResponseError)
        ensures
            r == self.spec_as_response_error(),
    {
        match self {
            SchemaFault::Json(f) => ResponseError::Json(*f),
            SchemaFault::Utf8 => ResponseError::Utf8,
        }
    }
}

/// Relies on `http::Error`: the error type of the `http` crate, carried
/// opaquely so that request-construction failures can be reported.
#[verifier::external_type_specification]
#[verifier::external_body]
pub struct ExHttpError(http::Error);

/// Relies on `serde_json::Error`: the error type of the `serde_json` crate,
/// carried opaquely so that body-serialization failures can be reported.
#[verifier::external_type_specification]
#[verifier::external_body]
pub struct ExSerdeJsonError(serde_json::Error);

/// The type of errors returned by the API functions that prepare an HTTP
/// request, before any bytes cross the wire.
#[derive(Debug)]
pub enum RequestError {
    /// An error from preparing the HTTP request.
    Http(http::Error),

    /// An error while serializing a value into the JSON body of the HTTP
    /// request.
    Json(serde_json::Error),
}

} // verus!
