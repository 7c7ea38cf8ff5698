pub mod compute;
pub mod dynamic_vec;
pub mod log_parse;
