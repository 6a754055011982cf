//! A container runtime's core logic: configuration, image references,
//! HTTP and JSON handling, DEFLATE/gzip, tar headers, stacks and virtio devices.

pub mod error;
pub mod text;
pub mod gzip;
pub mod envmap;
pub mod config;
pub mod compose;
pub mod http;
pub mod tar;
pub mod tar_readback;
pub mod virtio;
pub mod vmm;
pub mod netdev;
pub mod winhv;
pub mod winapi;
pub mod registry;
pub mod overlay;
pub mod webtext;
pub mod cli;
pub mod seccomp;
pub mod json;
pub mod json_roundtrip;
pub mod dashboard;
pub mod lifecycle;
pub mod limits;
pub mod netlink;
pub mod sandbox;

