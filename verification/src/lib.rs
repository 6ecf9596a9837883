//! Turns a container image into a root filesystem tree.
//!
//! The crate holds the decisions of the image-to-rootfs pipeline, each with a
//! machine-checked contract: picking the platform-specific manifest out of a
//! multi-platform index, planning and reassembling the layer downloads around
//! a content-addressed cache, reading layer archives, and overlaying the
//! layers, whiteouts included, into one tree.  Network and filesystem access
//! belong to the caller, which feeds manifests and blobs in and writes the
//! finished tree out.

pub mod archive;
pub mod bytes;
pub mod cache;
pub mod driver;
pub mod error;
pub mod fetcher;
pub mod gzip;
pub mod manifest;
pub mod materializer;
pub mod path;
pub mod resolver;
pub mod rootfs;
pub mod tar;
