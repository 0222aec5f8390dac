pub mod execution_path;
pub mod pipeline;
