//! A live, hierarchical tree of named nodes that carry typed, bounded parameters.
//!
//! A [`Device`] owns the tree. [`Node`] and [`Parameter`] are handles into it, and every
//! operation on a handle names the device it works on. Operations that owe callbacks return
//! them as data: the caller runs them, in the order given.

pub mod device;
pub mod domain;
pub mod error;
pub mod exact;
pub mod float;
pub mod logger;
pub mod mq;
pub mod osc;
pub mod pattern;
pub mod protocol;
pub mod subscribers;
pub mod text;
pub mod value;
pub mod wide;

pub use device::parameter::Push;
pub use device::{Access, Device, Message, Node, NodeCallbackId, Notice, Parameter, TreeEvent, ValueCallbackIdx};
pub use domain::{Bounding, Domain};
pub use error::Error;
pub use float::{Double, Float};
pub use logger::{LogLevel, Logger, Record};
pub use mq::MessageQueue;
pub use protocol::Protocol;
pub use value::{Type, Value};
