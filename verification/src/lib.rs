//! A sorting visualiser: sorting algorithms that report every comparison,
//! swap and write they make, and the state machine that replays those
//! reports onto a displayed list.

pub mod consts;
pub mod tools;
pub mod sorts;
pub mod app_logic;
