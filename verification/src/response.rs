//! The streaming response-decoding engine.
//!
//! A [`ResponseBody`] owns a growable byte buffer and the status code of an
//! in-flight HTTP response.  The caller appends bytes as they arrive from
//! the transport (whatever its chunking) and asks for a typed parse; the
//! buffer advances past exactly the consumed prefix on success and is left
//! untouched when more data is needed or the data is malformed.

use vstd::prelude::*;

use crate::error::ResponseError;

verus! {

/// Relies on `bytes::BytesMut`: the growable byte buffer of the `bytes`
/// crate, with cheap amortized appends at the tail and advances at the head.
#[verifier::external_type_specification]
#[verifier::external_body]
pub struct ExBytesMut(bytes::BytesMut);

/// The bytes a `bytes::BytesMut` buffer currently holds, oldest first.
pub uninterp spec fn bytes_mut_contents(b: bytes::BytesMut) -> Seq<u8>;

/// Relies on `BytesMut::new`: a freshly created buffer holds no bytes.
#[verifier::external_body]
fn bytes_mut_new() -> (r: bytes::BytesMut)
    ensures
        bytes_mut_contents(r) == Seq::<u8>::empty(),
{
    bytes::BytesMut::new()
}

/// Relies on `BytesMut::extend_from_slice`: appends the slice at the tail
/// and changes nothing else.
#[verifier::external_body]
fn bytes_mut_extend(b: &mut bytes::BytesMut, s: &[u8])
    ensures
        bytes_mut_contents(*final(b)) == bytes_mut_contents(*old(b)) + s@,
{
    b.extend_from_slice(s);
}

/// Relies on `Buf::advance` for `BytesMut`: drops `cnt` bytes from the
/// head.  The call panics when `cnt` exceeds the bytes held, so that case
/// is required away.
#[verifier::external_body]
fn bytes_mut_advance(b: &mut bytes::BytesMut, cnt: usize)
    requires
        cnt <= bytes_mut_contents(*old(b)).len(),
    ensures
        bytes_mut_contents(*final(b)) == bytes_mut_contents(*old(b)).skip(cnt as int),
{
    bytes::Buf::advance(b, cnt);
}

/// Relies on the `Deref` impl of `BytesMut`: a read-only view of the bytes
/// held, without copying.
#[verifier::external_body]
fn bytes_mut_slice(b: &bytes::BytesMut) -> (r: &[u8])
    ensures
        r@ == bytes_mut_contents(*b),
{
    &*b
}

/// What a decode attempt yields, at the specification level.
pub enum SpecDecodeOutcome<T> {
    /// A typed value together with the number of bytes consumed.
    Success(T, int),
    /// The bytes are a valid but incomplete prefix of a response: the
    /// caller must obtain more bytes and try again.  No bytes are consumed.
    NeedMore,
    /// The decode failed; the error is terminal for this attempt and no
    /// bytes are consumed.
    Fail(ResponseError),
}

/// A trait implemented by all response types of the typed API operations.
///
/// A response type decodes itself from the status code and the bytes
/// buffered so far.  The decode is a pure function of those two inputs, so
/// re-invoking it on a strict superset of previously insufficient bytes is
/// sound, and which transport delivered the bytes never matters.
pub trait Response: View + Sized {
    /// What decoding yields on the given status code and buffered bytes:
    /// the model of the decoded value, the need-more signal, or the error.
    spec fn spec_decode(status_code: u16, bytes: Seq<u8>) -> SpecDecodeOutcome<Self::V>;

    /// Every decode attempt is well formed: a success consumes at most the
    /// bytes it was given, and a failure is never the need-more-data
    /// signal.
    proof fn lemma_decode_wf(status_code: u16, bytes: Seq<u8>)
        ensures
            match Self::spec_decode(status_code, bytes) {
                SpecDecodeOutcome::Success(m, k) => 0 <= k <= bytes.len(),
                SpecDecodeOutcome::NeedMore => true,
                SpecDecodeOutcome::Fail(e) => !(e is NeedMoreData),
            },
    ;

    /// Tries to parse the response from the given status code and response
    /// body bytes, returning the value and the number of bytes consumed.
    fn try_from_parts(status_code: u16, buf: &[u8]) -> (r: Result<(Self, usize), ResponseError>)
        ensures
            match Self::spec_decode(status_code, buf@) {
                SpecDecodeOutcome::Success(m, k) => match r {
                    Ok(p) => p.0@ == m && p.1 as int == k,
                    Err(e) => false,
                },
                SpecDecodeOutcome::NeedMore => r == Err::<(Self, usize), ResponseError>(
                    ResponseError::NeedMoreData,
                ),
                SpecDecodeOutcome::Fail(e) => r == Err::<(Self, usize), ResponseError>(e),
            },
    ;
}

/// A helper that holds a growable buffer of response bytes, to be parsed
/// into a typed API response.
pub struct ResponseBody {
    /// The HTTP status code of the response, fixed for the buffer's
    /// lifetime.
    pub status_code: u16,
    /// The growable buffer of bytes received so far but not yet consumed by
    /// a successful decode; its contents are spoken of through
    /// [`bytes_mut_contents`].
    pub buf: bytes::BytesMut,
}

impl ResponseBody {
    /// The bytes buffered so far: appended only at the tail, removed only
    /// from the head, and only by a successful parse.
    pub open spec fn buf_bytes(&self) -> Seq<u8> {
        bytes_mut_contents(self.buf)
    }

    /// The status code the buffer was created with, as specifications see
    /// it.
    pub open spec fn spec_status(&self) -> u16 {
        self.status_code
    }

    /// Reads the status code the buffer was created with.
    pub fn status(&self) -> (r: u16)
        ensures
            r == self.spec_status(),
    {
        self.status_code
    }

    /// Constructs a value for a response that has the specified HTTP status
    /// code.  The buffer starts empty.
    pub fn new(status_code: u16) -> (r: Self)
        ensures
            r.status_code == status_code,
            r.buf_bytes() == Seq::<u8>::empty(),
    {
        ResponseBody { status_code, buf: bytes_mut_new() }
    }

    /// Appends a slice of data from the HTTP response to the buffer.  No
    /// decoding happens as a side effect.
    pub fn append_slice(&mut self, buf: &[u8])
        ensures
            final(self).spec_status() == old(self).spec_status(),
            final(self).buf_bytes() == old(self).buf_bytes() + buf@,
    {
        bytes_mut_extend(&mut self.buf, buf);
    }

    /// Tries to parse all the data buffered so far into a response value.
    ///
    /// On success, exactly the consumed prefix leaves the buffer and any
    /// remaining bytes stay for a subsequent parse.  On
    /// [`ResponseError::NeedMoreData`] the buffer is left completely
    /// unchanged: the caller must append more bytes before retrying.  On a
    /// decode error the buffer is also left unchanged, so the raw bytes
    /// remain available for diagnostics; the error is terminal for the
    /// exchange.
    pub fn parse<T: Response>(&mut self) -> (r: Result<T, ResponseError>)
        ensures
            final(self).spec_status() == old(self).spec_status(),
            match T::spec_decode(old(self).spec_status(), old(self).buf_bytes()) {
                SpecDecodeOutcome::Success(m, k) => (match r {
                    Ok(v) => v@ == m,
                    Err(e) => false,
                }) && final(self).buf_bytes() == old(self).buf_bytes().skip(k),
                SpecDecodeOutcome::NeedMore => r == Err::<T, ResponseError>(
                    ResponseError::NeedMoreData,
                ) && final(self).buf_bytes() == old(self).buf_bytes(),
                SpecDecodeOutcome::Fail(e) => r == Err::<T, ResponseError>(e)
                    && final(self).buf_bytes() == old(self).buf_bytes(),
            },
    {
        proof {
            T::lemma_decode_wf(self.status_code, self.buf_bytes());
        }
        let slice = bytes_mut_slice(&self.buf);
        match T::try_from_parts(self.status_code, slice) {
            Ok((result, read)) => {
                bytes_mut_advance(&mut self.buf, read);
                Ok(result)
            },
            Err(err) => Err(err),
        }
    }

    /// Appends a slice of data from the HTTP response, and tries to parse
    /// all the data buffered so far into a response value.
    pub fn append_slice_and_parse<T: Response>(&mut self, buf: &[u8]) -> (r: Result<
        T,
        ResponseError,
    >)
        ensures
            final(self).spec_status() == old(self).spec_status(),
            match T::spec_decode(old(self).spec_status(), old(self).buf_bytes() + buf@) {
                SpecDecodeOutcome::Success(m, k) => (match r {
                    Ok(v) => v@ == m,
                    Err(e) => false,
                }) && final(self).buf_bytes() == (old(self).buf_bytes() + buf@).skip(k),
                SpecDecodeOutcome::NeedMore => r == Err::<T, ResponseError>(
                    ResponseError::NeedMoreData,
                ) && final(self).buf_bytes() == old(self).buf_bytes() + buf@,
                SpecDecodeOutcome::Fail(e) => r == Err::<T, ResponseError>(e)
                    && final(self).buf_bytes() == old(self).buf_bytes() + buf@,
            },
    {
        self.append_slice(buf);
        self.parse()
    }

    /// The bytes buffered so far, read-only and without copying.
    pub fn as_slice(&self) -> (r: &[u8])
        ensures
            r@ == self.buf_bytes(),
    {
        bytes_mut_slice(&self.buf)
    }
}

} // verus!
