pub mod digest;
pub mod model;
pub mod prefix;
pub mod wrap;
pub mod node;
pub mod store;
pub mod errors;
pub mod batch;
pub mod transaction;
pub mod response;
pub mod apply;
pub mod table;
pub mod collection;
pub mod diff;
pub mod sync;
pub mod laws;
pub mod export;
pub mod codec;
