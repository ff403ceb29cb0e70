pub mod checked_list;
pub mod checked_value;
pub mod misc;
pub mod rotation;
pub mod seq_facts;
