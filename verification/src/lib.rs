//! A finality gadget's voter environment and an in-memory block chain used to drive it.
pub mod environment;
pub mod testing;
