//! A minimal zero-copy message runtime.
//!
//! A producer assembles values directly inside a flat, caller-owned byte
//! buffer through a [`MessageBuilder`]; a consumer reads typed views such as
//! [`String`] straight out of the same bytes. Values refer to one another by
//! self-relative [`Pointer`]s, so a finished buffer can be copied or mapped
//! anywhere without patching.
pub mod error;
pub mod wire;
pub mod message_builder;
pub mod pointer;
pub mod string;

pub use error::Error;
pub use message_builder::MessageBuilder;
pub use pointer::Pointer;
pub use string::String;
