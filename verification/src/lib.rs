//! Verified core of a Wasm benchmark build and analysis tool: the Dockerfile
//! interpreter (parsing, path handling and the step-by-step decisions of each
//! instruction), the Docker command builder, and the summary statistics.
pub mod text;
pub mod unix_path;
pub mod build_docker;
pub mod third_party;
pub mod interpret;
pub mod dockerfile;
pub mod summarize;
pub mod extraction;

