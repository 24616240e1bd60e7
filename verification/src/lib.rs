//! Ingestion of scan layers: many per-layer point tables, each tagged with the
//! elevation encoded in its file name, become one five-column point matrix.
//!
//! Every number the library carries is the bit pattern of an IEEE-754
//! double, held in a `u64`. The adapter around the library reads files, turns
//! decimal text into bit patterns and does the arithmetic on them; the
//! library orders layers, checks shapes and lays the cells out.

pub mod assembler;
pub mod coordinator;
pub mod decoder;
pub mod error;
pub mod locator;
pub mod matrix;
pub mod number;
pub mod order;
pub mod pipeline;

pub use crate::pipeline::{read_layer, read_layers, read_selected_layers};
