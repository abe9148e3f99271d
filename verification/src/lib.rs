//! The verified core of a rollup node that sequences zero-knowledge UTXO
//! transactions: field elements, proofs and blocks, the commitment tree and
//! the block store, transaction validation and admission, the mempool, and
//! the lookups that the public interface is built on.

pub mod text;
pub mod element;
pub mod utxo;
pub mod error;
pub mod interface;
pub mod tree;
pub mod store;
pub mod validator;
pub mod mempool;
pub mod l1;
pub mod ledger;
pub mod node;
pub mod query;
pub mod pagination;
pub mod listing;
pub mod token;
pub mod burn;
pub mod http_error;
pub mod backend;
pub mod spy;
