//! A sharded key-value index over append-only logs, together with a
//! base64 encoder, a streaming xxHash32 hasher and a delimiter tokenizer.

mod base64;
mod parted_hash;
mod shard;
mod store;
mod tokenizer;
mod xxhash32;

pub use parted_hash::{row_of, shard_of, sign_of, sip_of, PartedHash, MAX_SHARD, ROWS, WIDTH};
pub use shard::{Buf, Descriptor, ShardFile, ShardHeader, ShardRow, StoreError, HEADER_SIZE, KV, ROW_SIZE};
pub use store::{Store, shards_entries};
pub use base64::{decode, encode};
pub use xxhash32::{Accumulator, Buffer, BufferedData, Bytes, Hasher, Lane, Lanes, State, xxh32, BYTES_IN_LANE, PRIME32_1, PRIME32_2, PRIME32_3, PRIME32_4, PRIME32_5};
pub use tokenizer::{SrcReader, Tokenizer, BUFFER_SIZE, CHUNK_SIZE};
