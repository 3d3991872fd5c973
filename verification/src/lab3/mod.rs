pub mod parallel;
