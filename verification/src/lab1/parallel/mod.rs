pub mod error;
pub mod example;
pub mod input;
pub mod rows;

pub use error::Error;
pub use input::{check_size, SizeVerdict};
pub use rows::{
    compute_rows_for_rank, get_dispels, process_rows_and_vector_multiplication, replication_layout,
    rows_product_fits,
};
