pub mod parallel;
pub mod serial;
