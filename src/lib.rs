//! Reading and writing of firmware dump containers: a magic prefix, a
//! sequence of versioned items terminated by an End item, each partition item
//! holding a self-terminating sequence of directory and file entries, and each
//! file's content held as a stream of length-prefixed blocks.
pub mod enumerate;
pub mod error;
pub mod facts;
pub mod format;
pub mod item;
pub mod laws;
pub mod le;
pub mod ps4;
pub mod reader;
pub mod scan;
pub mod walk;
pub mod writer;

pub use error::{PartError, ReaderError};
pub use item::{DumpItem, PartItem};
pub use ps4::{Entry, FileReader, PartData, PartReader};
pub use reader::{read_dump, DumpReader, ItemReader, Partition};
