//! The directory database of a frecency-ranked directory jumper: entries,
//! their scores, the query matcher, the on-disk codec and the store.

pub mod codec;
pub mod db;
pub mod dir;
pub mod error;
pub mod matcher;
