//! Master curves of creep rupture life.
//!
//! Numbers are IEEE 754 binary64 values held as bit patterns (`number::Real`), whose
//! arithmetic is proved to be correctly rounded.
pub mod cli;
pub mod db;
pub mod fit;
pub mod host;
pub mod ingest;
pub mod json;
pub mod linalg;
pub mod models;
pub mod normal;
pub mod number;
pub mod server;
pub mod simplex;
pub mod specimen;
pub mod stats;
pub mod strset;
pub mod text;

