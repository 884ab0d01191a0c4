//! Errors: storage errors of the repositories and the four service errors
//! (mapped to HTTP statuses by the web layer).
use vstd::prelude::*;

verus! {

/// A storage error.
#[derive(Debug)]
pub enum RepositoryError {
    NotFound,
    /// A uniqueness constraint was violated (e.g. a project name taken).
    Conflict,
    Database(String),
}

/// A service error: the four outcomes the web layer turns into statuses.
#[derive(Debug)]
pub enum ServiceError {
    NotFound(String),
    Validation(String),
    Conflict(String),
    Repository(String),
}

impl ServiceError {
    pub open spec fn message(&self) -> Seq<char> {
        match self {
            ServiceError::NotFound(m) => m@,
            ServiceError::Validation(m) => m@,
            ServiceError::Conflict(m) => m@,
            ServiceError::Repository(m) => m@,
        }
    }

    /// The HTTP status and error code the web layer answers with: 404
    /// `not_found`, 400 `validation_error`, 409 `conflict`, 500 `repository_error`.
    pub fn status(&self) -> (r: (u16, &'static str))
        ensures
            r.0 == match self {
                ServiceError::NotFound(_) => 404u16,
                ServiceError::Validation(_) => 400u16,
                ServiceError::Conflict(_) => 409u16,
                ServiceError::Repository(_) => 500u16,
            },
            r.1@ == match self {
                ServiceError::NotFound(_) => "not_found"@,
                ServiceError::Validation(_) => "validation_error"@,
                ServiceError::Conflict(_) => "conflict"@,
                ServiceError::Repository(_) => "repository_error"@,
            },
    {
        match self {
            ServiceError::NotFound(_) => (404, "not_found"),
            ServiceError::Validation(_) => (400, "validation_error"),
            ServiceError::Conflict(_) => (409, "conflict"),
            ServiceError::Repository(_) => (500, "repository_error"),
        }
    }

    /// The text the error displays as (`{kind}: {message}`).
    pub fn to_message(&self) -> (r: String)
        ensures
            r@ == match self {
                ServiceError::NotFound(m) => "not found: "@ + m@,
                ServiceError::Validation(m) => "validation: "@ + m@,
                ServiceError::Conflict(m) => "conflict: "@ + m@,
                ServiceError::Repository(m) => "repository: "@ + m@,
            },
    {
        let (mut r, m) = match self {
            ServiceError::NotFound(m) => (String::from_str("not found: "), m),
            ServiceError::Validation(m) => (String::from_str("validation: "), m),
            ServiceError::Conflict(m) => (String::from_str("conflict: "), m),
            ServiceError::Repository(m) => (String::from_str("repository: "), m),
        };
        r.append(m.as_str());
        r
    }
}

impl RepositoryError {
    /// The text the error displays as.
    pub fn to_message(&self) -> (r: String)
        ensures
            r@ == match self {
                RepositoryError::NotFound => "resource not found"@,
                RepositoryError::Conflict => "conflict"@,
                RepositoryError::Database(m) => "database error: "@ + m@,
            },
    {
        match self {
            RepositoryError::NotFound => String::from_str("resource not found"),
            RepositoryError::Conflict => String::from_str("conflict"),
            RepositoryError::Database(m) => {
                let mut r = String::from_str("database error: ");
                r.append(m.as_str());
                r
            },
        }
    }
}

impl From<RepositoryError> for ServiceError {
    /// `NotFound` -> `NotFound("resource_not_found")`, `Conflict` ->
    /// `Conflict("resource_conflict")`, `Database(m)` -> `Repository(m)`.
    fn from(e: RepositoryError) -> (r: ServiceError)
        ensures
            match e {
                RepositoryError::NotFound => r is NotFound && r.message() == "resource_not_found"@,
                RepositoryError::Conflict => r is Conflict && r.message() == "resource_conflict"@,
                RepositoryError::Database(m) => r is Repository && r.message() == m@,
            },
    {
        match e {
            RepositoryError::NotFound => ServiceError::NotFound(String::from_str("resource_not_found")),
            RepositoryError::Conflict => ServiceError::Conflict(String::from_str("resource_conflict")),
            RepositoryError::Database(m) => ServiceError::Repository(m),
        }
    }
}

impl vstd::std_specs::convert::FromSpecImpl<RepositoryError> for ServiceError {
    open spec fn obeys_from_spec() -> bool {
        false
    }

    open spec fn from_spec(v: RepositoryError) -> ServiceError {
        ServiceError::Repository(arbitrary())
    }
}

} // verus!
