//! What holds of nodes across operations.

pub mod activity;
pub mod bounds;
pub mod decisions;
pub mod halves;
pub mod headers;
pub mod numbers;
pub mod offsets;
pub mod order;
pub mod parts;
pub mod places;
pub mod reading;
pub mod routing;
pub mod sizes;
pub mod tree;
pub mod updates;
