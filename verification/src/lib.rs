//! A mail account as a read-only file tree.
//!
//! Mailboxes become directories and messages become files. The library holds
//! the translation engine: the path/handle table, the mailbox tree built from
//! a server's mailbox listing, the lazy per-message fetch-and-parse pipeline,
//! and the dispatch of filesystem calls onto that model. Network transport
//! (the IMAP session itself) and the kernel filesystem glue live outside the
//! library and hand it plain values.

use vstd::prelude::*;

pub mod attr;
pub mod error;
pub mod fs;
pub mod headers;
pub mod inode;
pub mod sort;
pub mod strutil;
pub mod types;

verus! {

} // verus!
