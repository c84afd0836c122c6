//! Building blocks of a DNS-splitting proxy: the wire codec for queries, the
//! suffix trie that classifies domains, the pending-query table that pairs
//! upstream answers with the callers waiting for them, and the dispatch
//! decision taken for each client datagram.
pub mod dispatch;
pub mod domain_list;
pub mod payload;
pub mod pending;
pub mod trie;
