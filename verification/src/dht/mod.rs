pub mod bucket;
pub mod contact;
pub mod id;
pub mod msg;
pub mod rpc;
pub mod table;
pub mod traversal;
pub mod lookups;
pub mod requests;
pub mod server;
