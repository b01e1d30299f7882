//! The library's error type.
use vstd::prelude::*;

verus! {

/// A failure explained to the user in one message.
#[derive(Debug)]
pub enum AppError {
    Message(String),
}

impl AppError {
    /// An error carrying the given text.
    pub fn message(text: &str) -> (r: AppError)
        ensures
            r matches AppError::Message(m) && m@ == text@,
    {
        AppError::Message(String::from_str(text))
    }

    /// The text shown to the user.
    pub fn text(&self) -> (r: String)
        ensures
            self matches AppError::Message(m) && r@ == m@,
    {
        match self {
            AppError::Message(m) => m.clone(),
        }
    }
}

/// Turns a failure into the text shown to the user.
pub trait IntoMessage<T> {
    fn message(self) -> Result<T, String>;
}

impl<T> IntoMessage<T> for Result<T, AppError> {
    fn message(self) -> (r: Result<T, String>)
        ensures
            match (self, r) {
                (Ok(a), Ok(b)) => a == b,
                (Err(AppError::Message(m)), Err(t)) => t@ == m@,
                _ => false,
            },
    {
        match self {
            Ok(value) => Ok(value),
            Err(error) => Err(error.text()),
        }
    }
}

/// The result is a failure with exactly this message.
pub open spec fn fails_with<T>(r: Result<T, AppError>, message: Seq<char>) -> bool {
    match r {
        Err(AppError::Message(m)) => m@ == message,
        Ok(_) => false,
    }
}

} // verus!
