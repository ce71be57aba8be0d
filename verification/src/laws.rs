//! What the operations are for: what a result owes to what went in, apart from how it is
//! computed.

pub mod announce;
pub mod conclude;
pub mod daemon;
pub mod device;
pub mod limits;
pub mod live;
pub mod logs;
pub mod message;
pub mod number;
pub mod packet;
pub mod probe;
pub mod rules;
pub mod score;
pub mod table;
pub mod text;
pub mod verdict;
