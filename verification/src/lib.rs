//! Question Desk: the verified core of a small desk for logging hard questions,
//! keeping them in a local store and drafting a first answer with a checklist.

pub mod clock;
pub mod draft;
pub mod model;
pub mod store;
pub mod text;
