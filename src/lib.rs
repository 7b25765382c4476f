//! A bridge between a host application and an embedded SQL database:
//! dynamically typed values, parameter binding, row decoding, and a registry
//! of open transactions addressed by opaque handles.

pub mod value;
pub mod registry;
pub mod bridge;
