pub mod block;
pub mod blockchain;
pub mod chain_file;
pub mod index;
pub mod transaction;

pub use block::{Block, BlockHeader};
pub use blockchain::{Blockchain, MempoolEntry};
pub use transaction::{Transaction, TransactionInput, TransactionOutput};
