//! Listing of the conversations a messaging-platform user can see.
//!
//! The library drives a cursor-paginated list endpoint through a step-wise
//! paginator, classifies each raw conversation record into a normalized
//! shape (deriving a one-character type marker and a list of display names,
//! including the decoding of multi-person direct-message identifiers),
//! filters by substring, and sorts the result by type marker and names.
//! All network and terminal concerns live outside the library; callers hand
//! in plain values and receive plain values back.

pub mod conversation;
pub mod error;
pub mod normalize;
pub mod paginate;
pub mod pipeline;
pub mod response;
pub mod sort;
pub mod text;
