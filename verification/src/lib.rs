//! CSV document engine and editing model for the Editable spreadsheet editor.
//!
//! The library owns dialect detection, record indexing, field decoding and
//! encoding, the editable document overlay (edits, inserted and deleted rows
//! and columns, filters and sort keys), the selection model and undo history.
//! File access and the user interface live outside the library.

pub mod dialect;
pub mod document;
pub mod live;

pub use dialect::{detect_dialect, CsvDialect, Encoding, LineEnding};
pub mod error;
pub mod parser;
pub mod text;
pub mod writer;

pub use error::CsvError;
pub use parser::{decode_field, encode_field, parse_records, FieldIndex, RecordIndex};
pub mod rules;
pub mod selection;
pub mod controls;
pub mod formatting;
pub mod stats;
pub mod bundle;
pub mod find;
pub mod state;
pub mod roundtrip;
pub mod input;
pub mod panels;
pub mod sorting;

pub use rules::{ColumnFilter, FilterOperator, FilterRule, SortDirection, SortKey};
pub use document::{CellCoord, CsvDocument, CsvDocumentSnapshot, EditStats, OpenOptions};
