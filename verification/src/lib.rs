//! The core of a local multi-agent harness.
//!
//! A workflow is a graph of nodes that hand documents to each other. What an
//! agent asks for is judged before it is done, written down when it was done,
//! and can be undone. Nothing here touches a disk, a network or a clock: where
//! that is needed, a function says what to do and another takes in what came of
//! it.

pub mod agent;
pub mod backend;
pub mod chat;
pub mod checkpoint;
pub mod clarify;
pub mod context;
pub mod cycles;
pub mod digits;
pub mod dispatcher;
pub mod document;
pub mod engine;
pub mod floor;
pub mod graph;
pub mod journal;
pub mod json;
mod kept;
pub mod ladder;
pub mod memory;
pub mod node;
pub mod ollama;
pub mod outputs;
pub mod paths;
pub mod probe;
pub mod profile;
pub mod report;
pub mod resolving;
pub mod round_trip;
pub mod routing;
pub mod run;
pub mod sandbox;
pub mod scheduler;
pub mod skipping;
pub mod split;
pub mod table;
pub mod text;
pub mod tokens;
pub mod toolcalls;
pub mod validation;
pub mod walk;
pub mod work;
pub mod worker;
