//! Status codes of the protocol, and the total mapping from storage errors
//! to them.
use vstd::prelude::*;
use http::StatusCode;
use http::status::InvalidStatusCode;

use crate::fs::FsError;

verus! {

/// `http::StatusCode`, carried as an opaque value.
#[verifier::external_type_specification]
#[verifier::external_body]
pub struct ExStatusCode(StatusCode);

/// `http::status::InvalidStatusCode`, the error of a refused conversion.
#[verifier::external_type_specification]
#[verifier::external_body]
pub struct ExInvalidStatusCode(InvalidStatusCode);

/// `StatusCode::from_u16` accepts exactly 100 to 999; what it returns depends on the number alone.
pub assume_specification[ StatusCode::from_u16 ](src: u16) -> (r: Result<
    StatusCode,
    InvalidStatusCode,
>)
    ensures
        r.is_ok() <==> 100 <= src <= 999,
        r matches Ok(code) ==> code == http_status(src),
;

/// `StatusCode::as_u16` returns the number held, from 100 to 999 for any value.
pub assume_specification[ StatusCode::as_u16 ](code: &StatusCode) -> (r: u16)
    ensures
        100 <= r <= 999,
;

/// The status codes that the engine answers with.
#[derive(Debug, Clone, Copy, PartialEq, Eq, Structural)]
pub enum Status {
    Okay,
    Created,
    NoContent,
    MultiStatus,
    NotModified,
    BadRequest,
    Forbidden,
    NotFound,
    MethodNotAllowed,
    Conflict,
    PreconditionFailed,
    PayloadTooLarge,
    UriTooLong,
    Locked,
    FailedDependency,
    InternalServerError,
    NotImplemented,
    BadGateway,
    InsufficientStorage,
    LoopDetected,
}

impl Status {
    /// The three-digit number of the status.
    pub open spec fn code_spec(self) -> u16 {
        match self {
            Status::Okay => 200,
            Status::Created => 201,
            Status::NoContent => 204,
            Status::MultiStatus => 207,
            Status::NotModified => 304,
            Status::BadRequest => 400,
            Status::Forbidden => 403,
            Status::NotFound => 404,
            Status::MethodNotAllowed => 405,
            Status::Conflict => 409,
            Status::PreconditionFailed => 412,
            Status::PayloadTooLarge => 413,
            Status::UriTooLong => 414,
            Status::Locked => 423,
            Status::FailedDependency => 424,
            Status::InternalServerError => 500,
            Status::NotImplemented => 501,
            Status::BadGateway => 502,
            Status::InsufficientStorage => 507,
            Status::LoopDetected => 508,
        }
    }

    /// The status with the given number, if the engine knows one.
    pub open spec fn from_code_spec(code: u16) -> Option<Status> {
        if code == 200 {
            Some(Status::Okay)
        } else if code == 201 {
            Some(Status::Created)
        } else if code == 204 {
            Some(Status::NoContent)
        } else if code == 207 {
            Some(Status::MultiStatus)
        } else if code == 304 {
            Some(Status::NotModified)
        } else if code == 400 {
            Some(Status::BadRequest)
        } else if code == 403 {
            Some(Status::Forbidden)
        } else if code == 404 {
            Some(Status::NotFound)
        } else if code == 405 {
            Some(Status::MethodNotAllowed)
        } else if code == 409 {
            Some(Status::Conflict)
        } else if code == 412 {
            Some(Status::PreconditionFailed)
        } else if code == 413 {
            Some(Status::PayloadTooLarge)
        } else if code == 414 {
            Some(Status::UriTooLong)
        } else if code == 423 {
            Some(Status::Locked)
        } else if code == 424 {
            Some(Status::FailedDependency)
        } else if code == 500 {
            Some(Status::InternalServerError)
        } else if code == 501 {
            Some(Status::NotImplemented)
        } else if code == 502 {
            Some(Status::BadGateway)
        } else if code == 507 {
            Some(Status::InsufficientStorage)
        } else if code == 508 {
            Some(Status::LoopDetected)
        } else {
            None
        }
    }

    /// Whether the status reports success (a number from 200 to 299).
    pub open spec fn is_success_spec(self) -> bool {
        200 <= self.code_spec() <= 299
    }

    /// The three-digit number of the status.
    #[verifier::when_used_as_spec(code_spec)]
    pub fn code(self) -> (c: u16)
        ensures
            c == self.code_spec(),
            100 <= c <= 999,
    {
        match self {
            Status::Okay => 200,
            Status::Created => 201,
            Status::NoContent => 204,
            Status::MultiStatus => 207,
            Status::NotModified => 304,
            Status::BadRequest => 400,
            Status::Forbidden => 403,
            Status::NotFound => 404,
            Status::MethodNotAllowed => 405,
            Status::Conflict => 409,
            Status::PreconditionFailed => 412,
            Status::PayloadTooLarge => 413,
            Status::UriTooLong => 414,
            Status::Locked => 423,
            Status::FailedDependency => 424,
            Status::InternalServerError => 500,
            Status::NotImplemented => 501,
            Status::BadGateway => 502,
            Status::InsufficientStorage => 507,
            Status::LoopDetected => 508,
        }
    }

    /// The status with the given number, if the engine knows one.
    pub fn from_code(code: u16) -> (s: Option<Status>)
        ensures
            s == Status::from_code_spec(code),
            s matches Some(st) ==> st.code_spec() == code,
    {
        if code == 200 {
            Some(Status::Okay)
        } else if code == 201 {
            Some(Status::Created)
        } else if code == 204 {
            Some(Status::NoContent)
        } else if code == 207 {
            Some(Status::MultiStatus)
        } else if code == 304 {
            Some(Status::NotModified)
        } else if code == 400 {
            Some(Status::BadRequest)
        } else if code == 403 {
            Some(Status::Forbidden)
        } else if code == 404 {
            Some(Status::NotFound)
        } else if code == 405 {
            Some(Status::MethodNotAllowed)
        } else if code == 409 {
            Some(Status::Conflict)
        } else if code == 412 {
            Some(Status::PreconditionFailed)
        } else if code == 413 {
            Some(Status::PayloadTooLarge)
        } else if code == 414 {
            Some(Status::UriTooLong)
        } else if code == 423 {
            Some(Status::Locked)
        } else if code == 424 {
            Some(Status::FailedDependency)
        } else if code == 500 {
            Some(Status::InternalServerError)
        } else if code == 501 {
            Some(Status::NotImplemented)
        } else if code == 502 {
            Some(Status::BadGateway)
        } else if code == 507 {
            Some(Status::InsufficientStorage)
        } else if code == 508 {
            Some(Status::LoopDetected)
        } else {
            None
        }
    }

    /// Whether the status reports success.
    pub fn is_success(self) -> (b: bool)
        ensures
            b == self.is_success_spec(),
    {
        let c = self.code();
        200 <= c && c <= 299
    }

    /// The same status as a value of the `http` crate: the value that the
    /// crate has for the number of the status. Every number of this type lies
    /// in the range that `StatusCode::from_u16` accepts, so `None` never comes.
    pub fn to_http(self) -> (r: Option<StatusCode>)
        ensures
            r == Some(http_status(self.code_spec())),
    {
        match StatusCode::from_u16(self.code()) {
            Ok(sc) => Some(sc),
            Err(_) => None,
        }
    }

    /// The status that a value of the `http` crate stands for, where the
    /// engine knows its number.
    pub fn from_http(sc: &StatusCode) -> (s: Option<Status>)
        ensures
            exists|code: u16| 100 <= code <= 999 && s == Status::from_code_spec(code),
    {
        Status::from_code(sc.as_u16())
    }

    /// The status that answers a storage error. The mapping is total and
    /// the same for every method.
    pub open spec fn of_error(e: FsError) -> Status {
        match e {
            FsError::NotImplemented => Status::NotImplemented,
            FsError::GeneralFailure => Status::InternalServerError,
            FsError::Exists => Status::MethodNotAllowed,
            FsError::NotFound => Status::NotFound,
            FsError::Forbidden => Status::Forbidden,
            FsError::InsufficientStorage => Status::InsufficientStorage,
            FsError::LoopDetected => Status::LoopDetected,
            FsError::PathTooLong => Status::UriTooLong,
            FsError::TooLarge => Status::PayloadTooLarge,
            FsError::IsRemote => Status::BadGateway,
        }
    }

    /// The status that answers a storage error.
    pub fn from_error(e: FsError) -> (s: Status)
        ensures
            s == Status::of_error(e),
    {
        match e {
            FsError::NotImplemented => Status::NotImplemented,
            FsError::GeneralFailure => Status::InternalServerError,
            FsError::Exists => Status::MethodNotAllowed,
            FsError::NotFound => Status::NotFound,
            FsError::Forbidden => Status::Forbidden,
            FsError::InsufficientStorage => Status::InsufficientStorage,
            FsError::LoopDetected => Status::LoopDetected,
            FsError::PathTooLong => Status::UriTooLong,
            FsError::TooLarge => Status::PayloadTooLarge,
            FsError::IsRemote => Status::BadGateway,
        }
    }
}

/// The value of `http::StatusCode` that `StatusCode::from_u16` returns for
/// a number that it accepts.
pub uninterp spec fn http_status(number: u16) -> StatusCode;

/// Every status is found again from its number.
pub proof fn lemma_code_round_trip(s: Status)
    ensures
        Status::from_code_spec(s.code_spec()) == Some(s),
{
}

/// No storage error is answered with a success status.
pub proof fn lemma_error_is_no_success(e: FsError)
    ensures
        !Status::of_error(e).is_success_spec(),
        400 <= Status::of_error(e).code_spec() <= 599,
{
}

} // verus!
