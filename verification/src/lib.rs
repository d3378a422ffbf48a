//! Rows out of a `mysqldump --xml` document.
//!
//! A dump is a root element that holds `row` elements, each of which
//! holds `field` elements with a `name` attribute and text. Given the
//! ordered field names of a record type, [`mysqldump_quick_xml`] reads
//! the dump with `quick_xml` and returns one row of strings per `row`
//! element.

pub mod assembler;
pub mod bytes;
pub mod error;
pub mod event;
pub mod laws;
pub mod model;
pub mod parse;
pub mod schema;
pub mod shape;
pub mod tokenizer;

pub use assembler::{assemble, Mode, RowAssembler};
pub use error::{ErrorKind, ParseError};
pub use event::{Event, Step, TagAttribute, Target};
pub use parse::mysqldump_quick_xml;
pub use schema::Schema;
