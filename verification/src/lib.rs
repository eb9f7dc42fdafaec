//! Reconstruction of a linear flight itinerary from an unordered set of
//! one-hop legs: validation, endpoint detection, and bounded path walking,
//! each with a proved contract.

pub mod assoc;
pub mod model;
pub mod flight;
pub mod laws;
