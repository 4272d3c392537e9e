//! The errors that the service reports to its clients, and the status that a
//! result is answered with.

use crate::model::AppError;
use vstd::prelude::*;

verus! {

/// Whose fault an error is.
#[derive(Clone, Copy, Debug, PartialEq, Eq, Structural)]
pub enum ErrorType {
    ClientError,
    ServerError,
}

/// An error as it is reported: a code, a reason and, where there is more to
/// say, a description.
#[derive(Clone, Debug)]
pub struct Error<'a> {
    pub error_type: ErrorType,
    pub code: i32,
    pub reason: &'a str,
    /// The description of `Error`. It is `None` until `with_description` gives
    /// one.
    pub description: Option<String>,
}

impl<'a> Error<'a> {
    /// An error that is the client's fault, without a description.
    pub fn new_client_error(code: i32, reason: &'a str) -> (error: Self)
        ensures
            error.error_type == ErrorType::ClientError,
            error.code == code,
            error.reason == reason,
            error.description is None,
    {
        Error { error_type: ErrorType::ClientError, code, reason, description: None }
    }

    /// An error that is the server's fault, without a description.
    pub fn new_server_error(code: i32, reason: &'a str) -> (error: Self)
        ensures
            error.error_type == ErrorType::ServerError,
            error.code == code,
            error.reason == reason,
            error.description is None,
    {
        Error { error_type: ErrorType::ServerError, code, reason, description: None }
    }

    /// The same error with the description `desc`.
    pub fn with_description(&self, desc: &str) -> (error: Self)
        ensures
            error.error_type == self.error_type,
            error.code == self.code,
            error.reason == self.reason,
            error.description matches Some(text) && text@ == desc@,
    {
        Error {
            error_type: self.error_type,
            code: self.code,
            reason: self.reason,
            description: Some(desc.to_owned()),
        }
    }
}

/// The kinds of errors that the service reports.
#[derive(Clone, Copy, Debug, PartialEq, Eq, Structural)]
pub enum ErrorKind {
    Internal,
    RoleNotFound,
    RoleNameAlreadyExists,
    InvalidArgument,
    NotFound,
    FailedToReadRequest,
    FailedToDecode,
}

impl ErrorKind {
    /// The code of the kind.
    pub open spec fn code(self) -> i32 {
        match self {
            ErrorKind::Internal => 100001,
            ErrorKind::RoleNotFound => 200001,
            ErrorKind::RoleNameAlreadyExists => 200002,
            ErrorKind::InvalidArgument => 30001,
            ErrorKind::NotFound => 30002,
            ErrorKind::FailedToReadRequest => 30003,
            ErrorKind::FailedToDecode => 30004,
        }
    }

    /// Whose fault the kind is: only an internal error is the server's.
    pub open spec fn error_type(self) -> ErrorType {
        match self {
            ErrorKind::Internal => ErrorType::ServerError,
            _ => ErrorType::ClientError,
        }
    }

    /// The reason of the kind.
    pub open spec fn reason(self) -> Seq<char> {
        match self {
            ErrorKind::Internal => "internal"@,
            ErrorKind::RoleNotFound => "role not found"@,
            ErrorKind::RoleNameAlreadyExists => "role name is already exists"@,
            ErrorKind::InvalidArgument => "invalid argument"@,
            ErrorKind::NotFound => "not found"@,
            ErrorKind::FailedToReadRequest => "failed to read request"@,
            ErrorKind::FailedToDecode => "failed to decode"@,
        }
    }

    /// The error of the kind, without a description.
    pub fn error(&self) -> (error: Error<'static>)
        ensures
            error.error_type == self.error_type(),
            error.code == self.code(),
            error.reason@ == self.reason(),
            error.description is None,
    {
        match self {
            ErrorKind::Internal => Error::new_server_error(100001, "internal"),
            ErrorKind::RoleNotFound => Error::new_client_error(200001, "role not found"),
            ErrorKind::RoleNameAlreadyExists => Error::new_client_error(
                200002,
                "role name is already exists",
            ),
            ErrorKind::InvalidArgument => Error::new_client_error(30001, "invalid argument"),
            ErrorKind::NotFound => Error::new_client_error(30002, "not found"),
            ErrorKind::FailedToReadRequest => Error::new_client_error(
                30003,
                "failed to read request",
            ),
            ErrorKind::FailedToDecode => Error::new_client_error(30004, "failed to decode"),
        }
    }
}

/// The kind under which a failure of the application is reported: a missing
/// role and a taken name are the client's to mend, all else is internal.
pub open spec fn reported_kind(failure: AppError) -> ErrorKind {
    match failure {
        AppError::Sqlx | AppError::Migrate | AppError::ConnectPostgres => ErrorKind::Internal,
        AppError::RoleNotFound => ErrorKind::RoleNotFound,
        AppError::RoleNameAlreadyExists => ErrorKind::RoleNameAlreadyExists,
    }
}

/// What a handler answers: a body, or an error.
#[derive(Debug)]
pub enum HTTPResult<'a, T> {
    Success(T),
    Error(Error<'a>),
}

impl<'a, T> HTTPResult<'a, T> {
    /// The status of the answer: 200 for a body, 400 for an error that is the
    /// client's fault, 500 for one that is the server's.
    pub open spec fn status_spec(&self) -> u16 {
        match self {
            HTTPResult::Success(_) => 200,
            HTTPResult::Error(error) => match error.error_type {
                ErrorType::ClientError => 400,
                ErrorType::ServerError => 500,
            },
        }
    }

    /// The status of the answer.
    pub fn status(&self) -> (status: u16)
        ensures
            status == self.status_spec(),
    {
        match self {
            HTTPResult::Success(_) => 200,
            HTTPResult::Error(error) => match error.error_type {
                ErrorType::ClientError => 400,
                ErrorType::ServerError => 500,
            },
        }
    }
}

impl AppError {
    /// The answer that reports the failure, with `description` as the
    /// description of the error.
    pub fn to_http_result<T>(&self, description: &str) -> (result: HTTPResult<'static, T>)
        ensures
            result matches HTTPResult::Error(error) && {
                let kind = reported_kind(*self);
                &&& error.error_type == kind.error_type()
                &&& error.code == kind.code()
                &&& error.reason@ == kind.reason()
                &&& error.description matches Some(text) && text@ == description@
            },
    {
        let kind = match self {
            AppError::Sqlx | AppError::Migrate | AppError::ConnectPostgres => ErrorKind::Internal,
            AppError::RoleNotFound => ErrorKind::RoleNotFound,
            AppError::RoleNameAlreadyExists => ErrorKind::RoleNameAlreadyExists,
        };
        HTTPResult::Error(kind.error().with_description(description))
    }
}

} // verus!
