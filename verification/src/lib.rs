//! Host-side logic of a Terracotta room server: connection codes, the
//! scaffolding protocol, EasyTier arguments and configuration checks.

pub mod text;
pub mod room;
pub mod config;
pub mod codec;
pub mod easytier;
pub mod scaffolding;
