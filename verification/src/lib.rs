//! Core of a package installer for the Python ecosystem.
//!
//! The crate has four cooperating pieces:
//!
//! * a content-addressed extraction cache that turns zip-based wheel archives
//!   into a deduplicated, deterministic inventory of files ([`cache`]),
//! * a binary codec that serializes that inventory with owned backing bytes
//!   ([`owned_archive`]),
//! * helpers for locating and cross-checking the metadata embedded in a wheel
//!   ([`wheel`], [`metadata`], [`wheel_name`]),
//! * a build coordinator that drives sandboxed source-to-wheel builds with
//!   per-source single-flight semantics ([`wheel_builder`]).

pub mod cache;
pub mod egg_info;
pub mod metadata;
pub mod owned_archive;
pub mod package_name;
pub mod strutil;
pub mod tags;
pub mod version;
pub mod wheel;
pub mod wheel_builder;
pub mod wheel_name;

