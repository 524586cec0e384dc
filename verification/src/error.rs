//! Errors shown to users, and the HTTP answer each one gets.
use vstd::prelude::*;

verus! {

/// Application errors shown to the user.
#[derive(Debug)]
pub enum AppError {
    NotFound,
    BadRequest(String),
    Forbidden,
    Banned,
    RateLimited,
    /// An internal failure; the text is for the log, never for the user.
    Internal(String),
}

/// HTTP status and body text of an error, as the user sees it.
pub open spec fn spec_response(e: AppError) -> (u16, Seq<char>) {
    match e {
        AppError::NotFound => (404, "Not found"@),
        AppError::BadRequest(msg) => (400, msg@),
        AppError::Forbidden => (403, "Forbidden"@),
        AppError::Banned => (403, "You are banned"@),
        AppError::RateLimited => (429, "You are posting too fast"@),
        AppError::Internal(_) => (500, "Internal error"@),
    }
}

/// Short description of an error (its display text).
pub open spec fn spec_message(e: AppError) -> Seq<char> {
    match e {
        AppError::NotFound => "not found"@,
        AppError::BadRequest(msg) => msg@,
        AppError::Forbidden => "forbidden"@,
        AppError::Banned => "banned"@,
        AppError::RateLimited => "rate limited"@,
        AppError::Internal(_) => "internal error"@,
    }
}

impl AppError {
    /// A "bad request" error with the given message.
    pub fn bad_request(msg: &str) -> (res: AppError)
        ensures
            res matches AppError::BadRequest(m) && m@ == msg@,
    {
        AppError::BadRequest(msg.to_owned())
    }

    /// The HTTP status and the body text that the user is answered with.
    pub fn response(&self) -> (res: (u16, String))
        ensures
            res.0 == spec_response(*self).0,
            res.1@ == spec_response(*self).1,
    {
        match self {
            AppError::NotFound => (404, "Not found".to_owned()),
            AppError::BadRequest(msg) => (400, msg.clone()),
            AppError::Forbidden => (403, "Forbidden".to_owned()),
            AppError::Banned => (403, "You are banned".to_owned()),
            AppError::RateLimited => (429, "You are posting too fast".to_owned()),
            AppError::Internal(_) => (500, "Internal error".to_owned()),
        }
    }

    /// The error's display text.
    pub fn message(&self) -> (res: String)
        ensures
            res@ == spec_message(*self),
    {
        match self {
            AppError::NotFound => "not found".to_owned(),
            AppError::BadRequest(msg) => msg.clone(),
            AppError::Forbidden => "forbidden".to_owned(),
            AppError::Banned => "banned".to_owned(),
            AppError::RateLimited => "rate limited".to_owned(),
            AppError::Internal(_) => "internal error".to_owned(),
        }
    }
}

} // verus!
