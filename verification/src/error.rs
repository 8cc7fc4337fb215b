use vstd::prelude::*;

verus! {

/// Unified application error. Internal detail is carried in the payload and never
/// exposed to clients: a response shows only the HTTP status and its generic reason.
#[derive(Debug, Clone, PartialEq, Eq)]
pub enum AppError {
    Upstream(String),
    Parse(String),
    Cache(String),
    Store(String),
    Config(String),
    Unauthorized,
    NoSnapshot,
}

impl AppError {
    /// The HTTP status an error is answered with: 401 for auth, 503 while no snapshot
    /// exists yet, 502 for upstream failures, 500 for every internal failure.
    pub open spec fn http_status(self) -> u16 {
        match self {
            AppError::Unauthorized => 401,
            AppError::NoSnapshot => 503,
            AppError::Upstream(_) => 502,
            AppError::Parse(_) => 500,
            AppError::Cache(_) => 500,
            AppError::Store(_) => 500,
            AppError::Config(_) => 500,
        }
    }

    /// The HTTP status code of the response that reports this error.
    pub fn status_code(&self) -> (code: u16)
        ensures
            code == self.http_status(),
            self is Unauthorized ==> code == 401,
            self is NoSnapshot ==> code == 503,
            self is Upstream ==> code == 502,
            self is Parse || self is Cache || self is Store || self is Config ==> code == 500,
    {
        match self {
            AppError::Unauthorized => 401,
            AppError::NoSnapshot => 503,
            AppError::Upstream(_) => 502,
            AppError::Parse(_) | AppError::Cache(_) | AppError::Store(_) | AppError::Config(_) => 500,
        }
    }

    /// Errors are answered by kind: 401 for missing auth, 503 while no snapshot exists,
    /// 502 when the status page fails, 500 for any internal failure (parse, cache, store,
    /// configuration).
    pub proof fn lemma_status_by_kind(self)
        ensures
            self is Unauthorized ==> self.http_status() == 401,
            self is NoSnapshot ==> self.http_status() == 503,
            self is Upstream ==> self.http_status() == 502,
            self is Parse || self is Cache || self is Store || self is Config ==> self.http_status()
                == 500,
    {
    }
}

} // verus!
