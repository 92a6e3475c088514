//! Read-path core of a log-structured-merge storage engine: the binary block
//! format for sorted key-value runs, a cursor over one block, and a k-way
//! merge of sorted sources with priority-based duplicate resolution.

pub mod block;
pub mod block_iterator;
pub mod errors;
pub mod iterators;
pub mod merge;
pub mod merge_iterator;
pub mod mock_iterator;
pub mod order;

pub use block::Block;
pub use block_iterator::BlockIterator;
pub use errors::Error;
pub use iterators::StorageIterator;
pub use merge_iterator::MergeIterator;
pub use mock_iterator::MockIterator;
