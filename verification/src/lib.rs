//! A small metadata catalog: typed records persisted in an embedded
//! ordered key-value store, exposed through query and mutation resolvers.

pub mod codec;
pub mod db;
pub mod image;
pub mod resolver;
