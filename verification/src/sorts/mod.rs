pub mod bubble;
pub mod gnome;
pub mod heap;
pub mod iterative_merge;
pub mod merge;
pub mod parallel_merge;
pub mod parallel_quick;
pub mod quick;
pub mod rotate_merge;
pub mod sort_type;
pub mod stooge;

pub use sort_type::{NoSuchSort, SortParseError, SortType};
