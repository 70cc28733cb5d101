//! Quorum request distribution: a request is sent to every backend node over a
//! chunked TCP exchange, and the answer that the most nodes agree on wins.
//!
//! The library holds the decisions of that lifecycle: how a message is cut
//! into blocks and read back (`framing`), what happens at each step of one
//! node's exchange (`exchange`), and how the outcomes of all nodes are tallied
//! and the answer chosen (`tally`). The caller performs the network work that
//! each decision asks for.
pub mod exchange;
pub mod framing;
pub mod tally;
