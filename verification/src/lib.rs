//! A suffix-array indexing and query engine for concatenated text corpora.
//!
//! The crate builds a suffix array (with a longest-common-prefix array) over
//! a delimited, sentinel-terminated text, serializes it to a seek-addressable
//! byte image, reopens such images, and answers exact-match queries against
//! the opened structure: occurrence counts, occurrence locations, windowed
//! substring extraction, ordered listing, and point lookups.

pub mod builder;
pub mod image;
pub mod laws;
pub mod order;
pub mod query;
pub mod store;
pub mod strio;
pub mod types;

pub use order::SortProfile;
pub use store::SuffixArray;
pub use types::CountOptions;
pub use types::CountResult;
pub use types::ExtractOptions;
pub use types::ExtractResult;
pub use types::ExtractSequence;
pub use types::ListOptions;
pub use types::LocateOptions;
pub use types::LocatePosition;
pub use types::LocateResult;
pub use types::SequenceFileData;
pub use types::SufrBuilderArgs;
pub use types::SufrError;
pub use types::SufrMetadata;
