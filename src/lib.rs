//! Duplicate-file finder: size buckets, content fingerprints, and a
//! peekable queue that tells whether a bucket is worth fingerprinting.
mod fasthasher;
mod hash_map;
mod peek_queue;
mod report;
mod size_map;

pub use fasthasher::{checksum, fast_hash, has_zip_extension, is_zip_name, FastHasher, DEFAULT_BUFFER_SIZE};
pub use peek_queue::{after_next, lemma_items_kept, next_item, replay, MsQueueWithPeak, QueueStep};
pub use report::{fmt_queue, decimal, joined, bracketed};
pub use size_map::{ids_of_size, lemma_ids_of_size_members, size_is_shared, FilePaths, SizeMap};
pub use hash_map::{ids_with_fingerprint, keep_fingerprinted, kept_fingerprints, kept_ids, lemma_each_entry_in_one_group, lemma_group_no_duplicates, lemma_grouped_by_fingerprint, lemma_same_group_iff_same_fingerprint, SizeHashMap};
