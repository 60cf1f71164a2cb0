//! Multi-level signature aggregation core in the style of the Handel
//! protocol: a committee of `N` participants is laid out on a virtual
//! binary tree, and partial contributions (bit sets of contributors plus
//! an opaque signature payload) are combined level by level until one
//! contribution covers the whole committee.

use vstd::prelude::*;

mod bitset;
mod codec;
mod config;
mod contribution;
mod error;
mod evaluator;
mod level;
mod partitioner;
mod protocol;
mod store;

pub use bitset::BitSet;
pub use codec::{decode_update, encode_update};
pub use config::{
    ClientConfig, ClientConfigBuilder, ConfigError, ConsensusConfig, NetworkId, ProtocolConfig,
    ReverseProxyConfig, StorageConfig, ValidatorConfig, WS_DEFAULT_PORT,
};
pub use contribution::{Contribution, ContributionView};
pub use evaluator::score;
pub use error::{
    ConfigurationError, ContributionError, PartitioningError, StoreError, SyncError,
};
pub use level::{Level, LevelState};
pub use partitioner::BinomialPartitioner;
pub use protocol::{Aggregation, Config, Update};
pub use store::Store;

verus! {

} // verus!
