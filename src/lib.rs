//! A caching DNS resolver's core: the wire codec (parser and writer, with name
//! compression on read), the cache with positive and negative entries, the
//! recursive resolver as a state machine, the query handler and the
//! configuration decisions. Each function states its behaviour in its contract;
//! the laws of the cache and the codec are proved in `cache_laws` and `wire_laws`.

pub mod cache;
pub mod cache_laws;
pub mod packet;
pub mod parser;
pub mod recursive_resolver;
pub mod resolve_strategy;
pub mod server_config;
pub mod stub_resolver;
pub mod wire_laws;
pub mod writer;
