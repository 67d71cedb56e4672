//! Decoding of a chain node's event records and waiting for one of them.
//!
//! A node emits, block by block, a list of event records. A client that has
//! sent a transaction waits for the event that confirms it. This library
//! holds the steps between the text that arrives and the event that is
//! handed out:
//!
//! - `transport`: from the hexadecimal text of a blob to its bytes;
//! - `codec`, `reader`: the primitives of the wire format and a cursor
//!   that reads them;
//! - `metadata`, `registry`: the schema of the events, and the sizes of
//!   the argument types that the schema names;
//! - `events`: the decoder of one block's records;
//! - `waiter`: the search for one event over a feed of blobs;
//! - `payload`, `oracle`: the shapes that argument bytes are given.

use vstd::prelude::*;

pub mod codec;
pub mod error;
pub mod events;
pub mod metadata;
pub mod oracle;
pub mod payload;
pub mod reader;
pub mod registry;
pub mod text;
pub mod transport;
pub mod waiter;

verus! {

/// The address of the node that a local test setup listens on.
pub fn get_local_test_node() -> (address: String)
    ensures
        address@ == "0.0.0.0:9999"@,
{
    "0.0.0.0:9999".to_owned()
}

} // verus!
