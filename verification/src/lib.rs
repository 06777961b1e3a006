//! MFAS core: the canonical address space for finite byte strings.
//!
//! Addresses, pages, recursive nodes, the bijective enumeration of byte
//! strings, the resolver, the streaming codec, the DAG engine and the
//! synthetic generators and evaluators, each with its contract.

pub mod error;
pub mod address;
pub mod util;
pub mod text;
pub mod ext;
pub mod page;
pub mod node;
pub mod store;
pub mod resolver;
pub mod codec;
pub mod lossless;
pub mod enumeration;
pub mod synthetic;
pub mod inspector;
pub mod dag;
pub mod gpu;
pub mod preserve;
pub mod canonical;
pub mod desktop;

pub use address::{Address, NodeType, CURRENT_VERSION, SCHEME_PREFIX};
pub use codec::{decode, decode_to_writer, encode, verify_stream, ByteCursor, ByteSource, VerificationReport};
pub use enumeration::{bytes_to_number, length_offset, number_to_bytes, Natural};
pub use error::{AddressError, CoreError, NodeError, PageError, ResolveError};
pub use inspector::{checked_inspect_address, inspect_address, InspectionReport};
pub use node::Node;
pub use page::{
    split_into_pages, Page, RadixCoordinate, BYTES_PER_FLOOR, BYTES_PER_PAGE, BYTES_PER_ROOM, BYTES_PER_SHELF,
    BYTES_PER_VOLUME, BYTES_PER_WALL, PAGE_SIZE,
};
pub use resolver::{resolve, resolve_to_writer, AddressStore, ByteSink, Limits, MemoryStore};
pub use synthetic::SyntheticStream;
