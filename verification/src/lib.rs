pub mod dht;
pub mod fs;
pub mod data;
pub mod download;
pub mod hexcode;
pub mod clock;
pub mod bitfield;
pub mod cache;
pub mod client;
pub mod announce;
pub mod avg;
pub mod bencode;
pub mod kademlia;
pub mod magnet;
pub mod metadata;
pub mod metainfo;
pub mod msg;
pub mod netaddr;
pub mod peer;
pub mod urltext;
