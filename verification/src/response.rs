//! The decode policy for endpoint responses. A body is decoded permissively
//! into a tagged union by attempting the success shape first and falling
//! back to the error shape; the attempts themselves are schema work done by
//! the caller, while the order and the fallback are decided here: a matched
//! success wins, a matched error shape carries the platform's code, and a
//! body matching neither is schema drift.

use vstd::prelude::*;

use crate::conversation::Page;
use crate::error::ListError;

verus! {

/// The user object a lookup response carries. An active and a deleted
/// account are distinct shapes, but both are named.
#[derive(Debug)]
pub enum LookupUser {
    Active { name: String },
    Deleted { name: String },
}

impl LookupUser {
    /// The display name: both account shapes carry one.
    pub open spec fn spec_name(&self) -> Seq<char> {
        match self {
            LookupUser::Active { name } => name@,
            LookupUser::Deleted { name } => name@,
        }
    }
}

/// Classifies one list-endpoint body from its two decode attempts.
pub fn decode_page_outcome(success: Option<Page>, failure: Option<String>) -> (r: Result<
    Page,
    ListError,
>)
    ensures
        match success {
            Option::Some(page) => r == Result::<Page, ListError>::Ok(page),
            Option::None => match failure {
                Option::Some(code) => r == Result::<Page, ListError>::Err(
                    ListError::ApiError { code },
                ),
                Option::None => r == Result::<Page, ListError>::Err(ListError::DecodeError),
            },
        },
{
    match success {
        Some(page) => Ok(page),
        None => match failure {
            Some(code) => Err(ListError::ApiError { code }),
            None => Err(ListError::DecodeError),
        },
    }
}

/// Classifies one user-lookup body from its two decode attempts; a matched
/// success yields the display name of either account shape.
pub fn decode_user_outcome(success: Option<LookupUser>, failure: Option<String>) -> (r: Result<
    String,
    ListError,
>)
    ensures
        match success {
            Option::Some(user) => r matches Ok(n) && n@ == user.spec_name(),
            Option::None => match failure {
                Option::Some(code) => r == Result::<String, ListError>::Err(
                    ListError::ApiError { code },
                ),
                Option::None => r == Result::<String, ListError>::Err(ListError::DecodeError),
            },
        },
{
    match success {
        Some(LookupUser::Active { name }) => Ok(name),
        Some(LookupUser::Deleted { name }) => Ok(name),
        None => match failure {
            Some(code) => Err(ListError::ApiError { code }),
            None => Err(ListError::DecodeError),
        },
    }
}

} // verus!
