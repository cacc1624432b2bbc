//! What holds of the cache as a whole.

pub mod drawing;
pub mod finding;
pub mod histories;
pub mod keeping;
pub mod numbers;
pub mod packing;
pub mod queue;
pub mod reading;
pub mod recognising;
pub mod repeating;
pub mod showing;
pub mod singles;
pub mod texture;
pub mod uploads;
pub mod versions;
