//! A single-process, embedded, log-structured key-value store.
//!
//! Writes are appended to a log of length-prefixed frames, reads go through
//! an in-memory index that points into the log, and compaction rewrites the
//! log to hold only the live records. The engine works on an in-memory image
//! of the log file; an embedding caller loads the image from disk before
//! opening the store and persists it after each mutation.

mod codec;
mod error;
mod index;
mod log;
mod store;

pub use codec::decodable;
pub use codec::decode;
pub use codec::encode;
pub use codec::encoded;
pub use codec::fits;
pub use codec::len_bytes;
pub use codec::lemma_encoded_injective;
pub use codec::lemma_fits_bounds;
pub use codec::KvPair;
pub use codec::PairView;
pub use error::KvsError;
pub use index::entries_map;
pub use index::entries_size;
pub use index::Index;
pub use index::IndexEntry;
pub use index::Location;
pub use log::frame;
pub use log::frames;
pub use log::scan_outcome;
pub use log::wf_records;
pub use log::ScanOutcome;
pub use store::loc_ok;
pub use store::apply_record;
pub use store::live_records;
pub use store::replay_locs;
pub use store::lemma_durability;
pub use store::lemma_last_writer_wins;
pub use store::lemma_set_then_get;
pub use store::replay_map;
pub use store::KvStore;
pub use store::COMPACTION_THRESHOLD;
