pub mod paths;
pub mod serial;
