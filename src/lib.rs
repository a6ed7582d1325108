//! Persistence rules for construction estimates: a header (client, project,
//! total, timestamps) and the ordered line items that belong to it.

mod clock;
pub mod model;
pub mod rows;
pub mod store;
pub mod laws;
