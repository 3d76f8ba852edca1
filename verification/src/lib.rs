//! Register and memory access for control/status registers described in
//! SystemRDL, with the byte layout of every access verified.
//!
//! - [`reg`]: registers, read, written and modified through a transport;
//! - [`io`]: transports, and the mock transport backed by a byte array;
//! - [`endian`]: byte and word orders;
//! - [`layout`]: the mathematical model of register values in memory;
//! - [`mem`]: memories of equally sized entries;
//! - [`masked_mem`]: memories whose entries keep only their low `width` bits;
//! - [`access`]: read/write access tokens;
//! - [`generator`]: the code generator's configuration for build scripts;
//! - [`version`]: the version of this crate.
pub mod access;
pub mod endian;
pub mod generator;
pub mod io;
pub mod layout;
pub mod masked_mem;
pub mod mem;
pub mod reg;
pub mod version;
