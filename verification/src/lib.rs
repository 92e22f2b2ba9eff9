//! The decisions of a UDP proxy that makes a link worse on purpose: it delays
//! packets, jitters them, loses some and limits their rate, and its settings
//! can be changed while it runs.
//!
//! Everything here computes on plain values. Sockets, clocks, tasks and windows
//! belong to the program around the library.
pub mod addr;
pub mod app;
pub mod bucket;
pub mod config;
pub mod engine;
pub mod number;
pub mod packet;
pub mod receiver;
pub mod schedule;
pub mod selection;
pub mod sender;
pub mod single;
pub mod time;
pub mod upstream;
