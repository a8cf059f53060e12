//! Identity-indexed, navigable join representations for relational query
//! results: a row table and an identity-keyed map, three join shapes
//! (many-to-zero, zero-to-many, many-to-many) with lossless conversions and
//! structure-preserving transforms, a dense tie-aware ranking, and the
//! decision core of a lazily initialized connection pool. Every operation
//! carries a contract over the structures' mathematical models, and the
//! cross-cutting laws are stated and proved alongside them.

pub mod adjacency;
pub mod has_rowid;
pub mod id_seq;
pub mod join_collection;
pub mod join_relation;
pub mod many_to_many_join;
pub mod many_to_zero_join;
pub mod pool;
pub mod ranking;
pub mod rowid_map;
pub mod seq_count;
pub mod table;
pub mod zero_to_many_join;

pub use adjacency::AdjacencyMap;
pub use has_rowid::HasRowID;
pub use join_collection::JoinCollection;
pub use join_relation::JoinRelation;
pub use many_to_many_join::ManyToManyJoin;
pub use many_to_zero_join::ManyToZeroJoin;
pub use pool::InitOutcome;
pub use pool::PoolFailure;
pub use pool::PoolLifecycle;
pub use pool::PoolPhase;
pub use pool::PoolStep;
pub use ranking::Ranking;
pub use rowid_map::RowIDMap;
pub use table::Table;
pub use zero_to_many_join::ZeroToManyJoin;
