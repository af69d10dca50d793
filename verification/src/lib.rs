//! Engine of an interactive fuzzy finder: scoring, bounded ranking, the live
//! filtering pipeline, sessions and the framing of the wire protocol.

pub mod executor;
pub mod filter;
pub mod item;
pub mod live;
pub mod manager;
pub mod matcher;
pub mod path;
pub mod provider;
pub mod ranked;
pub mod release;
pub mod rpc;
pub mod session;
pub mod source;
pub mod text;
