pub mod be;
pub mod bin_format;
pub mod compare;
pub mod csv_format;
pub mod error;
pub mod field_map;
pub mod formats;
pub mod lines;
pub mod text;
pub mod transaction;
pub mod txt_format;

pub use error::{ParseError, Result};
pub use transaction::{Status, Transaction, TxType};
