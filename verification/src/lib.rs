//! Reader and writer for the `.hgr` archive format.
//!
//! An archive is a header, compressed frames, an index and a footer. The
//! library works on bytes in memory; whoever uses it brings the files, the
//! clock and the terminal.

pub mod archive;
pub mod assembly;
pub mod bytes;
pub mod clock;
pub mod codec;
pub mod crypto;
pub mod error;
pub mod extract;
pub mod format;
pub mod frame;
pub mod groups;
pub mod index;
pub mod job;
pub mod layout;
pub mod listing;
pub mod naming;
pub mod password;
pub mod path;
pub mod reader;
pub mod reading;
pub mod report;
pub mod text;
pub mod tree;
pub mod writer;
pub mod writing;

pub use crypto::{Argon2Params, Encryption};
pub use error::{Error, Result};
pub use format::{EntryKind, Footer, Header, MAGIC, VERSION_MAJOR, VERSION_MINOR};
pub use index::Entry;
pub use reader::Reader;
pub use writer::{Writer, WriterMode};
