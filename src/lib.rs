//! A time-tracking store: tasks that accumulate seconds, bucketed by the
//! calendar date of their creation timestamp, and favourite duration presets.
mod clock;
pub mod laws;
pub mod model;
pub mod store;
pub mod text;

pub use model::{Favourite, Task};
pub use store::TimeStore;
