//! HTTP status codes: the raw `u16` wrapper, the enumeration of well-known
//! codes, and the classification into informational, successful, redirection,
//! client-error and server-error classes.

use vstd::prelude::*;

verus! {

/// An HTTP status code.
#[derive(Clone, Copy, Debug)]
pub struct StatusCode(pub u16);

/// An error returned when trying to convert `Status::Unknown` into a
/// `StatusCode`.
#[derive(Clone, Copy, Debug)]
pub struct UnknownStatusError;

/// Enumeration of well-known HTTP status codes, plus `Unknown` for every
/// other code.
#[derive(Clone, Copy, Debug)]
pub enum Status {
    OK,
    Created,
    Accepted,
    NoContent,
    PartialContent,
    MovedPermanently,
    Found,
    SeeOther,
    NotModified,
    TemporaryRedirect,
    PermanentRedirect,
    BadRequest,
    Unauthorized,
    Forbidden,
    NotFound,
    MethodNotAllowed,
    Conflict,
    UnsupportedMediaType,
    RangeNotSatisfiable,
    TooManyRequests,
    InternalServerError,
    BadGateway,
    ServiceUnavailable,
    GatewayTimeout,
    Unknown,
}

/// The numeric code of a well-known status; `Unknown` carries no code and
/// maps to zero, which no well-known status uses.
pub open spec fn spec_status_code(s: Status) -> u16 {
    match s {
        Status::OK => 200,
        Status::Created => 201,
        Status::Accepted => 202,
        Status::NoContent => 204,
        Status::PartialContent => 206,
        Status::MovedPermanently => 301,
        Status::Found => 302,
        Status::SeeOther => 303,
        Status::NotModified => 304,
        Status::TemporaryRedirect => 307,
        Status::PermanentRedirect => 308,
        Status::BadRequest => 400,
        Status::Unauthorized => 401,
        Status::Forbidden => 403,
        Status::NotFound => 404,
        Status::MethodNotAllowed => 405,
        Status::Conflict => 409,
        Status::UnsupportedMediaType => 415,
        Status::RangeNotSatisfiable => 416,
        Status::TooManyRequests => 429,
        Status::InternalServerError => 500,
        Status::BadGateway => 502,
        Status::ServiceUnavailable => 503,
        Status::GatewayTimeout => 504,
        Status::Unknown => 0,
    }
}

/// The well-known status for a numeric code, `Unknown` for any other code.
pub open spec fn spec_status_of(code: u16) -> Status {
    match code {
        200u16 => Status::OK,
        201u16 => Status::Created,
        202u16 => Status::Accepted,
        204u16 => Status::NoContent,
        206u16 => Status::PartialContent,
        301u16 => Status::MovedPermanently,
        302u16 => Status::Found,
        303u16 => Status::SeeOther,
        304u16 => Status::NotModified,
        307u16 => Status::TemporaryRedirect,
        308u16 => Status::PermanentRedirect,
        400u16 => Status::BadRequest,
        401u16 => Status::Unauthorized,
        403u16 => Status::Forbidden,
        404u16 => Status::NotFound,
        405u16 => Status::MethodNotAllowed,
        409u16 => Status::Conflict,
        415u16 => Status::UnsupportedMediaType,
        416u16 => Status::RangeNotSatisfiable,
        429u16 => Status::TooManyRequests,
        500u16 => Status::InternalServerError,
        502u16 => Status::BadGateway,
        503u16 => Status::ServiceUnavailable,
        504u16 => Status::GatewayTimeout,
        _ => Status::Unknown,
    }
}

impl Status {
    /// The numeric code of a well-known status, zero for `Unknown`.
    pub fn code(&self) -> (r: u16)
        ensures
            r == spec_status_code(*self),
    {
        match self {
            Status::OK => 200,
            Status::Created => 201,
            Status::Accepted => 202,
            Status::NoContent => 204,
            Status::PartialContent => 206,
            Status::MovedPermanently => 301,
            Status::Found => 302,
            Status::SeeOther => 303,
            Status::NotModified => 304,
            Status::TemporaryRedirect => 307,
            Status::PermanentRedirect => 308,
            Status::BadRequest => 400,
            Status::Unauthorized => 401,
            Status::Forbidden => 403,
            Status::NotFound => 404,
            Status::MethodNotAllowed => 405,
            Status::Conflict => 409,
            Status::UnsupportedMediaType => 415,
            Status::RangeNotSatisfiable => 416,
            Status::TooManyRequests => 429,
            Status::InternalServerError => 500,
            Status::BadGateway => 502,
            Status::ServiceUnavailable => 503,
            Status::GatewayTimeout => 504,
            Status::Unknown => 0,
        }
    }

    pub fn is_informational(&self) -> (r: bool)
        ensures
            r <==> (100 <= spec_status_code(*self) <= 199),
    {
        let status = self.code();
        100 <= status && status <= 199
    }

    pub fn is_successful(&self) -> (r: bool)
        ensures
            r <==> (200 <= spec_status_code(*self) <= 299),
    {
        let status = self.code();
        200 <= status && status <= 299
    }

    pub fn is_redirection(&self) -> (r: bool)
        ensures
            r <==> (300 <= spec_status_code(*self) <= 399),
    {
        let status = self.code();
        300 <= status && status <= 399
    }

    pub fn is_client_error(&self) -> (r: bool)
        ensures
            r <==> (400 <= spec_status_code(*self) <= 499),
    {
        let status = self.code();
        400 <= status && status <= 499
    }

    pub fn is_server_error(&self) -> (r: bool)
        ensures
            r <==> (500 <= spec_status_code(*self) <= 599),
    {
        let status = self.code();
        500 <= status && status <= 599
    }
}

impl StatusCode {
    pub fn is_informational(&self) -> (r: bool)
        ensures
            r <==> (100 <= self.0 <= 199),
    {
        100 <= self.0 && self.0 <= 199
    }

    pub fn is_successful(&self) -> (r: bool)
        ensures
            r <==> (200 <= self.0 <= 299),
    {
        200 <= self.0 && self.0 <= 299
    }

    pub fn is_redirection(&self) -> (r: bool)
        ensures
            r <==> (300 <= self.0 <= 399),
    {
        300 <= self.0 && self.0 <= 399
    }

    pub fn is_client_error(&self) -> (r: bool)
        ensures
            r <==> (400 <= self.0 <= 499),
    {
        400 <= self.0 && self.0 <= 499
    }

    pub fn is_server_error(&self) -> (r: bool)
        ensures
            r <==> (500 <= self.0 <= 599),
    {
        500 <= self.0 && self.0 <= 599
    }
}

/// The five status classes partition their ranges: each class holds exactly
/// its hundred, the classes are pairwise exclusive, and `Status::Unknown`
/// satisfies none of them.
pub proof fn lemma_status_classes_partition(c: StatusCode, s: Status)
    ensures
        (100 <= c.0 <= 199) ==> !(200 <= c.0 <= 299) && !(300 <= c.0 <= 399) && !(400 <= c.0 <= 499)
            && !(500 <= c.0 <= 599),
        (200 <= c.0 <= 299) ==> !(300 <= c.0 <= 399) && !(400 <= c.0 <= 499) && !(500 <= c.0
            <= 599),
        (300 <= c.0 <= 399) ==> !(400 <= c.0 <= 499) && !(500 <= c.0 <= 599),
        (400 <= c.0 <= 499) ==> !(500 <= c.0 <= 599),
        s is Unknown ==> spec_status_code(s) == 0 && !(100 <= spec_status_code(s) <= 599),
{
}

impl PartialEq for StatusCode {
    fn eq(&self, other: &StatusCode) -> (r: bool)
    {
        self.0 == other.0
    }
}

impl vstd::std_specs::cmp::PartialEqSpecImpl for StatusCode {
    open spec fn obeys_eq_spec() -> bool {
        true
    }

    open spec fn eq_spec(&self, other: &StatusCode) -> bool {
        self.0 == other.0
    }
}

impl PartialEq for Status {
    fn eq(&self, other: &Status) -> (r: bool)
    {
        self.code() == other.code()
    }
}

impl vstd::std_specs::cmp::PartialEqSpecImpl for Status {
    open spec fn obeys_eq_spec() -> bool {
        true
    }

    open spec fn eq_spec(&self, other: &Status) -> bool {
        spec_status_code(*self) == spec_status_code(*other)
    }
}

/// A `StatusCode` equals a well-known `Status` when the codes agree;
/// `Status::Unknown` equals no `StatusCode` value, not even zero.
impl PartialEq<Status> for StatusCode {
    fn eq(&self, other: &Status) -> (r: bool)
    {
        match other {
            Status::Unknown => false,
            _ => self.0 == other.code(),
        }
    }
}

impl vstd::std_specs::cmp::PartialEqSpecImpl<Status> for StatusCode {
    open spec fn obeys_eq_spec() -> bool {
        true
    }

    open spec fn eq_spec(&self, other: &Status) -> bool {
        !(other is Unknown) && self.0 == spec_status_code(*other)
    }
}

impl PartialEq<StatusCode> for Status {
    fn eq(&self, other: &StatusCode) -> (r: bool)
    {
        match self {
            Status::Unknown => false,
            _ => self.code() == other.0,
        }
    }
}

impl vstd::std_specs::cmp::PartialEqSpecImpl<StatusCode> for Status {
    open spec fn obeys_eq_spec() -> bool {
        true
    }

    open spec fn eq_spec(&self, other: &StatusCode) -> bool {
        !(self is Unknown) && spec_status_code(*self) == other.0
    }
}

impl From<u16> for StatusCode {
    fn from(value: u16) -> (r: StatusCode)
    {
        StatusCode(value)
    }
}

impl vstd::std_specs::convert::FromSpecImpl<u16> for StatusCode {
    open spec fn obeys_from_spec() -> bool {
        true
    }

    open spec fn from_spec(value: u16) -> StatusCode {
        StatusCode(value)
    }
}

impl From<StatusCode> for Status {
    fn from(from: StatusCode) -> (r: Status)
    {
        Status::from(from.0)
    }
}

impl vstd::std_specs::convert::FromSpecImpl<StatusCode> for Status {
    open spec fn obeys_from_spec() -> bool {
        true
    }

    open spec fn from_spec(from: StatusCode) -> Status {
        spec_status_of(from.0)
    }
}

impl From<u16> for Status {
    fn from(from: u16) -> (r: Status)
    {
        match from {
            200 => Status::OK,
            201 => Status::Created,
            202 => Status::Accepted,
            204 => Status::NoContent,
            206 => Status::PartialContent,
            301 => Status::MovedPermanently,
            302 => Status::Found,
            303 => Status::SeeOther,
            304 => Status::NotModified,
            307 => Status::TemporaryRedirect,
            308 => Status::PermanentRedirect,
            400 => Status::BadRequest,
            401 => Status::Unauthorized,
            403 => Status::Forbidden,
            404 => Status::NotFound,
            405 => Status::MethodNotAllowed,
            409 => Status::Conflict,
            415 => Status::UnsupportedMediaType,
            416 => Status::RangeNotSatisfiable,
            429 => Status::TooManyRequests,
            500 => Status::InternalServerError,
            502 => Status::BadGateway,
            503 => Status::ServiceUnavailable,
            504 => Status::GatewayTimeout,
            _ => Status::Unknown,
        }
    }
}

impl vstd::std_specs::convert::FromSpecImpl<u16> for Status {
    open spec fn obeys_from_spec() -> bool {
        true
    }

    open spec fn from_spec(from: u16) -> Status {
        spec_status_of(from)
    }
}

impl TryFrom<Status> for StatusCode {
    type Error = UnknownStatusError;

    fn try_from(from: Status) -> (r: Result<StatusCode, UnknownStatusError>)
    {
        match from {
            Status::Unknown => Err(UnknownStatusError),
            _ => Ok(StatusCode(from.code())),
        }
    }
}

impl vstd::std_specs::convert::TryFromSpecImpl<Status> for StatusCode {
    open spec fn obeys_try_from_spec() -> bool {
        true
    }

    open spec fn try_from_spec(from: Status) -> Result<StatusCode, UnknownStatusError> {
        if from is Unknown {
            Err(UnknownStatusError)
        } else {
            Ok(StatusCode(spec_status_code(from)))
        }
    }
}

} // verus!
